//! The request heap: the cells of objects, streams and exceptions, which
//! values share by handle, with the request's byte and handle limits.

use vstd::prelude::*;
use std::rc::Rc;
use crate::runtime::error::{
    RuntimeErrorKind, bounds_error, bounds_failure, io_error, io_failure, is_type_error, type_error, type_failure,
};
use crate::runtime::value::{ClassId, HeapRef, Value, value_eq};

verus! {

broadcast use vstd::std_specs::vec::group_vec_axioms;

/// Counters of a request heap.
#[derive(Clone, Copy, Debug, Default, PartialEq, Eq, Structural)]
pub struct HeapStats {
    pub current_bytes: usize,
    pub peak_bytes: usize,
    pub live_cells: usize,
    pub collections: usize,
    pub collected_cells: usize,
    pub collected_bytes: usize,
    pub open_handles: usize,
    pub peak_open_handles: usize,
}

/// Where a stream's bytes are.
pub enum StreamStorage {
    Memory(Vec<u8>),
    Closed,
}

/// The shared state of a stream.
pub struct StreamState {
    pub storage: StreamStorage,
    pub cursor: usize,
    pub closed: bool,
    pub spill_threshold: Option<usize>,
    /// Whether the stream grew past its spill threshold: its bytes then
    /// belong to a temporary file and are no longer charged to the heap.
    pub spilled: bool,
    /// Whether the stream counts against the open-handle limit.
    pub holds_handle: bool,
}

/// The shared state of a throwable.
pub struct ExceptionState {
    pub properties: Vec<Option<Value>>,
    pub message: Vec<u8>,
    pub code: i64,
    pub previous: Option<Value>,
    pub target: Option<Vec<u8>>,
    pub system_code: i64,
    pub suppressed: Vec<Value>,
}

/// One cell of a request heap.
pub enum HeapCell {
    Object { class: ClassId, properties: Vec<Option<Value>> },
    Stream { class: ClassId, state: StreamState },
    Exception { class: ClassId, state: ExceptionState },
}

/// The cells that the request's objects, streams and exceptions live in,
/// and the request's limits.
pub struct RequestHeap {
    cells: Vec<HeapCell>,
    max_bytes: Option<usize>,
    current_bytes: usize,
    peak_bytes: usize,
    max_open_handles: Option<usize>,
    open_handles: usize,
    peak_open_handles: usize,
}

/// What a request heap holds, as plain values.
pub struct HeapModel {
    pub cells: Seq<HeapCell>,
    pub max_bytes: Option<usize>,
    pub current_bytes: nat,
    pub peak_bytes: nat,
    pub max_open_handles: Option<usize>,
    pub open_handles: nat,
    pub peak_open_handles: nat,
}

impl View for RequestHeap {
    type V = HeapModel;

    closed spec fn view(&self) -> HeapModel {
        HeapModel {
            cells: self.cells@,
            max_bytes: self.max_bytes,
            current_bytes: self.current_bytes as nat,
            peak_bytes: self.peak_bytes as nat,
            max_open_handles: self.max_open_handles,
            open_handles: self.open_handles as nat,
            peak_open_handles: self.peak_open_handles as nat,
        }
    }
}

/// The number of streams that hold an open handle.
pub open spec fn held_handles(cells: Seq<HeapCell>) -> nat
    decreases cells.len(),
{
    if cells.len() == 0 {
        0
    } else {
        held_handles(cells.drop_last()) + if holds_handle(cells.last()) {
            1nat
        } else {
            0nat
        }
    }
}

/// Whether a cell is a stream holding an open handle.
pub open spec fn holds_handle(c: HeapCell) -> bool {
    c matches HeapCell::Stream { state, .. } && state.holds_handle
}

/// A stream is closed exactly when its storage is released.
pub open spec fn stream_cell_wf(c: HeapCell) -> bool {
    c matches HeapCell::Stream { state, .. } ==> (state.closed <==> state.storage is Closed)
}

/// A heap's counters agree with its cells and limits.
pub open spec fn heap_wf(h: HeapModel) -> bool {
    &&& h.open_handles == held_handles(h.cells)
    &&& h.open_handles <= h.peak_open_handles
    &&& h.current_bytes <= h.peak_bytes
    &&& h.cells.len() <= u32::MAX
    &&& forall|i: int| 0 <= i < h.cells.len() ==> #[trigger] stream_cell_wf(h.cells[i])
}

/// At most every cell holds a handle.
pub proof fn lemma_held_handles_bound(cells: Seq<HeapCell>)
    ensures
        held_handles(cells) <= cells.len(),
    decreases cells.len(),
{
    if cells.len() > 0 {
        lemma_held_handles_bound(cells.drop_last());
    }
}

/// Appending a cell adds its handle, if any.
pub proof fn lemma_held_handles_push(cells: Seq<HeapCell>, c: HeapCell)
    ensures
        held_handles(cells.push(c)) == held_handles(cells) + if holds_handle(c) { 1nat } else { 0nat },
{
    assert(cells.push(c).drop_last() =~= cells);
}

/// Replacing a cell swaps its handle for the new cell's.
pub proof fn lemma_held_handles_update(cells: Seq<HeapCell>, i: int, c: HeapCell)
    requires
        0 <= i < cells.len(),
    ensures
        held_handles(cells.update(i, c)) + (if holds_handle(cells[i]) { 1nat } else { 0nat })
            == held_handles(cells) + (if holds_handle(c) { 1nat } else { 0nat }),
    decreases cells.len(),
{
    if i < cells.len() - 1 {
        lemma_held_handles_update(cells.drop_last(), i, c);
        assert(cells.update(i, c).drop_last() =~= cells.drop_last().update(i, c));
    } else {
        assert(cells.update(i, c).drop_last() =~= cells.drop_last());
    }
}

/// The stream state a handle designates in a heap.
pub open spec fn stream_at(h: HeapModel, r: HeapRef) -> Option<StreamState> {
    if r.index < h.cells.len() {
        match h.cells[r.index as int] {
            HeapCell::Stream { class, state } => if class == r.class { Some(state) } else { None },
            _ => None,
        }
    } else {
        None
    }
}

/// The exception state a handle designates in a heap.
pub open spec fn exception_at(h: HeapModel, r: HeapRef) -> Option<ExceptionState> {
    if r.index < h.cells.len() {
        match h.cells[r.index as int] {
            HeapCell::Exception { class, state } => if class == r.class { Some(state) } else { None },
            _ => None,
        }
    } else {
        None
    }
}

/// The object properties a handle designates in a heap.
pub open spec fn object_at(h: HeapModel, r: HeapRef) -> Option<Seq<Option<Value>>> {
    if r.index < h.cells.len() {
        match h.cells[r.index as int] {
            HeapCell::Object { class, properties } => if class == r.class { Some(properties@) } else { None },
            _ => None,
        }
    } else {
        None
    }
}

/// Whether a value may be stored in this heap: handles must designate a
/// cell of their kind here.
pub open spec fn belongs(h: HeapModel, v: Value) -> bool {
    match v {
        Value::Object(r) => object_at(h, r) is Some,
        Value::Stream(r) => stream_at(h, r) is Some,
        Value::Exception(r) => exception_at(h, r) is Some,
        _ => true,
    }
}

/// The stream state of a value, when it is a stream of this heap.
pub open spec fn stream_of(h: HeapModel, v: Value) -> Option<StreamState> {
    match v {
        Value::Stream(r) => stream_at(h, r),
        _ => None,
    }
}

/// The exception state of a value, when it is a throwable of this heap.
pub open spec fn exception_of(h: HeapModel, v: Value) -> Option<ExceptionState> {
    match v {
        Value::Exception(r) => exception_at(h, r),
        _ => None,
    }
}

/// The bytes a stream holds.
pub open spec fn stream_bytes(s: StreamState) -> Seq<u8> {
    match s.storage {
        StreamStorage::Memory(b) => b@,
        StreamStorage::Closed => Seq::empty(),
    }
}

/// The error a stream operation reports for a value that is not a stream
/// of this heap.
pub open spec fn not_a_stream<T>(h: HeapModel, v: Value, r: Result<T, RuntimeErrorKind>) -> bool {
    if v is Stream {
        r matches Err(RuntimeErrorKind::CrossRequestValue)
    } else {
        type_failure(r, "stream operation requires a stream object"@)
    }
}

impl RequestHeap {
    /// An empty heap; `None` means no byte or handle limit.
    pub fn new(max_bytes: Option<usize>, max_open_handles: Option<usize>) -> (heap: RequestHeap)
        ensures
            heap_wf(heap@),
            heap@.cells.len() == 0,
            heap@.max_bytes == max_bytes,
            heap@.max_open_handles == max_open_handles,
            heap@.current_bytes == 0,
            heap@.peak_bytes == 0,
            heap@.open_handles == 0,
            heap@.peak_open_handles == 0,
    {
        RequestHeap {
            cells: Vec::new(),
            max_bytes,
            current_bytes: 0,
            peak_bytes: 0,
            max_open_handles,
            open_handles: 0,
            peak_open_handles: 0,
        }
    }

    /// The heap's counters.
    pub fn stats(&self) -> (stats: HeapStats)
        ensures
            stats.current_bytes == self@.current_bytes,
            stats.peak_bytes == self@.peak_bytes,
            stats.live_cells == self@.cells.len(),
            stats.collections == 0,
            stats.collected_cells == 0,
            stats.collected_bytes == 0,
            stats.open_handles == self@.open_handles,
            stats.peak_open_handles == self@.peak_open_handles,
    {
        HeapStats {
            current_bytes: self.current_bytes,
            peak_bytes: self.peak_bytes,
            live_cells: self.cells.len(),
            collections: 0,
            collected_cells: 0,
            collected_bytes: 0,
            open_handles: self.open_handles,
            peak_open_handles: self.peak_open_handles,
        }
    }
}

/// The heap after charging `bytes` against its byte limit.
pub open spec fn charged(h: HeapModel, bytes: nat) -> Result<HeapModel, RuntimeErrorKind> {
    let next = h.current_bytes + bytes;
    if next > usize::MAX {
        Err(RuntimeErrorKind::AllocationFailure)
    } else if h.max_bytes matches Some(limit) && next > limit {
        Err(RuntimeErrorKind::HeapLimit { limit: h.max_bytes->0 })
    } else {
        Ok(HeapModel { current_bytes: next, peak_bytes: if next > h.peak_bytes { next } else { h.peak_bytes }, ..h })
    }
}

/// The handle counters after a stream takes a handle, or the limit it
/// would exceed.
pub open spec fn handle_taken(h: HeapModel) -> Result<HeapModel, RuntimeErrorKind> {
    let next = h.open_handles + 1;
    if h.max_open_handles matches Some(limit) && next > limit {
        Err(RuntimeErrorKind::OpenHandleLimit { limit: h.max_open_handles->0 })
    } else {
        Ok(HeapModel {
            open_handles: next,
            peak_open_handles: if next > h.peak_open_handles { next } else { h.peak_open_handles },
            ..h
        })
    }
}

/// The class a cell was created with.
pub open spec fn cell_class(c: HeapCell) -> ClassId {
    match c {
        HeapCell::Object { class, .. } => class,
        HeapCell::Stream { class, .. } => class,
        HeapCell::Exception { class, .. } => class,
    }
}

/// `n` uninitialised properties.
pub open spec fn no_properties(n: nat) -> Seq<Option<Value>> {
    Seq::new(n, |i: int| None::<Value>)
}

/// A new stream over `bytes`, holding a handle.
pub open spec fn new_stream_cell(class: ClassId, bytes: Vec<u8>, spill_threshold: Option<usize>) -> HeapCell {
    HeapCell::Stream {
        class,
        state: StreamState {
            storage: StreamStorage::Memory(bytes),
            cursor: 0,
            closed: false,
            spill_threshold,
            spilled: false,
            holds_handle: true,
        },
    }
}

impl RequestHeap {
    fn charge(&mut self, bytes: usize) -> (charged_ok: Result<(), RuntimeErrorKind>)
        requires
            heap_wf(old(self)@),
        ensures
            heap_wf(final(self)@),
            match charged(old(self)@, bytes as nat) {
                Ok(h) => charged_ok is Ok && final(self)@ == h,
                Err(e) => charged_ok == Err::<(), RuntimeErrorKind>(e) && final(self)@ == old(self)@,
            },
    {
        let next = match self.current_bytes.checked_add(bytes) {
            Some(n) => n,
            None => return Err(RuntimeErrorKind::AllocationFailure),
        };
        if let Some(limit) = self.max_bytes {
            if next > limit {
                return Err(RuntimeErrorKind::HeapLimit { limit });
            }
        }
        self.current_bytes = next;
        if next > self.peak_bytes {
            self.peak_bytes = next;
        }
        Ok(())
    }

    fn release(&mut self, bytes: usize)
        requires
            heap_wf(old(self)@),
        ensures
            heap_wf(final(self)@),
            final(self)@ == (HeapModel {
                current_bytes: if old(self)@.current_bytes >= bytes { (old(self)@.current_bytes - bytes) as nat } else { 0 },
                ..old(self)@
            }),
    {
        if self.current_bytes >= bytes {
            self.current_bytes = self.current_bytes - bytes;
        } else {
            self.current_bytes = 0;
        }
    }

    /// Adds a cell; fails when the heap cannot address another cell.
    fn allocate(&mut self, cell: HeapCell) -> (r: Result<HeapRef, RuntimeErrorKind>)
        requires
            heap_wf(old(self)@),
            stream_cell_wf(cell),
            !holds_handle(cell),
        ensures
            heap_wf(final(self)@),
            match r {
                Ok(handle) => old(self)@.cells.len() < u32::MAX && handle.index == old(self)@.cells.len()
                    && handle.class == cell_class(cell) && final(self)@ == (HeapModel { cells: old(self)@.cells.push(cell), ..old(self)@ }),
                Err(e) => old(self)@.cells.len() >= u32::MAX && e == RuntimeErrorKind::AllocationFailure
                    && final(self)@ == old(self)@,
            },
    {
        if self.cells.len() >= 4294967295usize {
            return Err(RuntimeErrorKind::AllocationFailure);
        }
        let index = self.cells.len() as u32;
        let class = match &cell {
            HeapCell::Object { class, .. } => *class,
            HeapCell::Stream { class, .. } => *class,
            HeapCell::Exception { class, .. } => *class,
        };
        proof {
            lemma_held_handles_push(self.cells@, cell);
        }
        self.cells.push(cell);
        Ok(HeapRef { index, class })
    }
}

fn empty_properties(count: usize) -> (properties: Vec<Option<Value>>)
    ensures
        properties@ == no_properties(count as nat),
{
    let mut properties: Vec<Option<Value>> = Vec::new();
    let mut i: usize = 0;
    while i < count
        invariant
            i <= count,
            properties@ == no_properties(i as nat),
        decreases count - i,
    {
        properties.push(None);
        i = i + 1;
        assert(properties@ =~= no_properties(i as nat));
    }
    properties
}

impl RequestHeap {
    /// Adds a stream cell holding a handle, charging its bytes.
    fn allocate_stream(&mut self, class: ClassId, bytes: Vec<u8>, spill_threshold: Option<usize>) -> (r: Result<
        Value,
        RuntimeErrorKind,
    >)
        requires
            heap_wf(old(self)@),
        ensures
            heap_wf(final(self)@),
            stream_created(old(self)@, final(self)@, class, bytes, spill_threshold, r),
    {
        if let Some(limit) = self.max_open_handles {
            if self.open_handles >= limit {
                return Err(RuntimeErrorKind::OpenHandleLimit { limit });
            }
        }
        if self.cells.len() >= 4294967295usize {
            return Err(RuntimeErrorKind::AllocationFailure);
        }
        let length = bytes.len();
        self.charge(length)?;
        let index = self.cells.len() as u32;
        proof {
            lemma_held_handles_bound(self.cells@);
        }
        let ghost cell = new_stream_cell(class, bytes, spill_threshold);
        proof {
            lemma_held_handles_push(self.cells@, cell);
        }
        self.cells.push(
            HeapCell::Stream {
                class,
                state: StreamState {
                    storage: StreamStorage::Memory(bytes),
                    cursor: 0,
                    closed: false,
                    spill_threshold,
                    spilled: false,
                    holds_handle: true,
                },
            },
        );
        self.open_handles = self.open_handles + 1;
        if self.open_handles > self.peak_open_handles {
            self.peak_open_handles = self.open_handles;
        }
        assert(stream_cell_wf(cell));
        Ok(Value::Stream(HeapRef { index, class }))
    }
}

/// What creating a stream over `bytes` does to a heap.
pub open spec fn stream_created(
    old: HeapModel,
    new: HeapModel,
    class: ClassId,
    bytes: Vec<u8>,
    spill_threshold: Option<usize>,
    r: Result<Value, RuntimeErrorKind>,
) -> bool {
    match handle_taken(old) {
        Err(e) => r == Err::<Value, RuntimeErrorKind>(e) && new == old,
        Ok(taken) => if old.cells.len() >= u32::MAX {
            r == Err::<Value, RuntimeErrorKind>(RuntimeErrorKind::AllocationFailure) && new == old
        } else {
            match charged(old, bytes@.len()) {
            Err(e) => r == Err::<Value, RuntimeErrorKind>(e) && new == old,
            Ok(paid) => {
                r == Ok::<Value, RuntimeErrorKind>(Value::Stream(HeapRef { index: old.cells.len() as u32, class }))
                    && new == (HeapModel {
                    cells: old.cells.push(new_stream_cell(class, bytes, spill_threshold)),
                    current_bytes: paid.current_bytes,
                    peak_bytes: paid.peak_bytes,
                    open_handles: taken.open_handles,
                    peak_open_handles: taken.peak_open_handles,
                    ..old
                })
            },
            }
        },
    }
}

impl Value {
    /// A byte string whose bytes are charged to the heap.
    pub fn try_bytes(heap: &mut RequestHeap, value: Vec<u8>) -> (v: Result<Value, RuntimeErrorKind>)
        requires
            heap_wf(old(heap)@),
        ensures
            heap_wf(final(heap)@),
            match charged(old(heap)@, value@.len()) {
                Ok(h) => final(heap)@ == h && (v matches Ok(Value::Bytes(b)) && b@ == value@),
                Err(e) => final(heap)@ == old(heap)@ && v == Err::<Value, RuntimeErrorKind>(e),
            },
    {
        heap.charge(value.len())?;
        Ok(Value::bytes(value))
    }

    /// A new object with `property_count` uninitialised properties.
    pub fn try_object(heap: &mut RequestHeap, class: ClassId, property_count: usize) -> (v: Result<
        Value,
        RuntimeErrorKind,
    >)
        requires
            heap_wf(old(heap)@),
        ensures
            heap_wf(final(heap)@),
            match v {
                Ok(value) => {
                    &&& value == Value::Object(HeapRef { index: old(heap)@.cells.len() as u32, class })
                    &&& old(heap)@.cells.len() < u32::MAX
                    &&& final(heap)@.cells.len() == old(heap)@.cells.len() + 1
                    &&& final(heap)@.cells.subrange(0, old(heap)@.cells.len() as int) == old(heap)@.cells
                    &&& final(heap)@.cells.last() matches HeapCell::Object { class: c, properties }
                    &&& c == class
                    &&& properties@ == no_properties(property_count as nat)
                    &&& final(heap)@ == (HeapModel { cells: final(heap)@.cells, ..old(heap)@ })
                },
                Err(e) => e == RuntimeErrorKind::AllocationFailure && old(heap)@.cells.len() >= u32::MAX
                    && final(heap)@ == old(heap)@,
            },
    {
        let properties = empty_properties(property_count);
        let ghost cell = HeapCell::Object { class, properties };
        let handle = heap.allocate(HeapCell::Object { class, properties })?;
        assert(final(heap)@.cells.subrange(0, old(heap)@.cells.len() as int) =~= old(heap)@.cells);
        Ok(Value::Object(handle))
    }

    /// A new throwable object with empty message, zero codes and no
    /// previous throwable.
    pub fn try_throwable_object(heap: &mut RequestHeap, class: ClassId, property_count: usize) -> (v: Result<
        Value,
        RuntimeErrorKind,
    >)
        requires
            heap_wf(old(heap)@),
        ensures
            heap_wf(final(heap)@),
            match v {
                Ok(value) => {
                    &&& value == Value::Exception(HeapRef { index: old(heap)@.cells.len() as u32, class })
                    &&& old(heap)@.cells.len() < u32::MAX
                    &&& final(heap)@.cells.len() == old(heap)@.cells.len() + 1
                    &&& final(heap)@.cells.subrange(0, old(heap)@.cells.len() as int) == old(heap)@.cells
                    &&& final(heap)@.cells.last() matches HeapCell::Exception { class: c, state }
                    &&& c == class
                    &&& state.properties@ == no_properties(property_count as nat)
                    &&& state.message@.len() == 0
                    &&& state.code == 0
                    &&& state.previous is None
                    &&& state.target is None
                    &&& state.system_code == 0
                    &&& state.suppressed@.len() == 0
                    &&& final(heap)@ == (HeapModel { cells: final(heap)@.cells, ..old(heap)@ })
                },
                Err(e) => e == RuntimeErrorKind::AllocationFailure && old(heap)@.cells.len() >= u32::MAX
                    && final(heap)@ == old(heap)@,
            },
    {
        let properties = empty_properties(property_count);
        let state = ExceptionState {
            properties,
            message: Vec::new(),
            code: 0,
            previous: None,
            target: None,
            system_code: 0,
            suppressed: Vec::new(),
        };
        let handle = heap.allocate(HeapCell::Exception { class, state })?;
        assert(final(heap)@.cells.subrange(0, old(heap)@.cells.len() as int) =~= old(heap)@.cells);
        Ok(Value::Exception(handle))
    }

    /// A new native exception whose code is its system code.
    pub fn try_exception(
        heap: &mut RequestHeap,
        class: ClassId,
        message: Vec<u8>,
        target: Option<Vec<u8>>,
        system_code: i64,
    ) -> (v: Result<Value, RuntimeErrorKind>)
        requires
            heap_wf(old(heap)@),
        ensures
            heap_wf(final(heap)@),
            match v {
                Ok(value) => {
                    &&& value == Value::Exception(HeapRef { index: old(heap)@.cells.len() as u32, class })
                    &&& old(heap)@.cells.len() < u32::MAX
                    &&& final(heap)@.cells.len() == old(heap)@.cells.len() + 1
                    &&& final(heap)@.cells.subrange(0, old(heap)@.cells.len() as int) == old(heap)@.cells
                    &&& final(heap)@.cells.last() matches HeapCell::Exception { class: c, state }
                    &&& c == class
                    &&& state.properties@.len() == 0
                    &&& state.message == message
                    &&& state.code == system_code
                    &&& state.previous is None
                    &&& state.target == target
                    &&& state.system_code == system_code
                    &&& state.suppressed@.len() == 0
                    &&& final(heap)@ == (HeapModel { cells: final(heap)@.cells, ..old(heap)@ })
                },
                Err(e) => e == RuntimeErrorKind::AllocationFailure && old(heap)@.cells.len() >= u32::MAX
                    && final(heap)@ == old(heap)@,
            },
    {
        let state = ExceptionState {
            properties: Vec::new(),
            message,
            code: system_code,
            previous: None,
            target,
            system_code,
            suppressed: Vec::new(),
        };
        let handle = heap.allocate(HeapCell::Exception { class, state })?;
        assert(final(heap)@.cells.subrange(0, old(heap)@.cells.len() as int) =~= old(heap)@.cells);
        Ok(Value::Exception(handle))
    }

    /// A new in-memory stream over `bytes`; it takes one of the heap's
    /// open handles.
    pub fn try_stream(heap: &mut RequestHeap, class: ClassId, bytes: Vec<u8>) -> (v: Result<Value, RuntimeErrorKind>)
        requires
            heap_wf(old(heap)@),
        ensures
            heap_wf(final(heap)@),
            stream_created(old(heap)@, final(heap)@, class, bytes, None, v),
    {
        heap.allocate_stream(class, bytes, None)
    }

    /// A new empty temporary stream; it takes one of the heap's open
    /// handles.
    pub fn try_temp_stream(heap: &mut RequestHeap, class: ClassId, spill_threshold: usize) -> (v: Result<
        Value,
        RuntimeErrorKind,
    >)
        requires
            heap_wf(old(heap)@),
        ensures
            heap_wf(final(heap)@),
            exists|bytes: Vec<u8>| bytes@.len() == 0 && stream_created(old(heap)@, final(heap)@, class, bytes, Some(spill_threshold), v),
    {
        let bytes: Vec<u8> = Vec::new();
        let ghost b = bytes;
        let r = heap.allocate_stream(class, bytes, Some(spill_threshold));
        assert(stream_created(old(heap)@, final(heap)@, class, b, Some(spill_threshold), r));
        r
    }
}

/// The handle of an object, stream or exception value.
pub open spec fn handle_of(v: Value) -> HeapRef {
    match v {
        Value::Object(r) | Value::Stream(r) | Value::Exception(r) => r,
        _ => HeapRef { index: 0, class: ClassId(0) },
    }
}

/// The heap with the stream that `v` designates in state `s`.
pub open spec fn with_stream(h: HeapModel, v: Value, s: StreamState) -> HeapModel {
    HeapModel {
        cells: h.cells.update(handle_of(v).index as int, HeapCell::Stream { class: handle_of(v).class, state: s }),
        ..h
    }
}

/// `bytes` written at `cursor` over `old`, zero-filling any gap.
pub open spec fn written(old: Seq<u8>, cursor: int, bytes: Seq<u8>) -> Seq<u8> {
    let base = if cursor > old.len() {
        old + Seq::new((cursor - old.len()) as nat, |i: int| 0u8)
    } else {
        old
    };
    let end = cursor + bytes.len();
    base.subrange(0, cursor) + bytes + if end < base.len() {
        base.subrange(end, base.len() as int)
    } else {
        Seq::empty()
    }
}

/// Keeping a cell's handle keeps the heap's handle count.
pub proof fn lemma_same_handles(cells: Seq<HeapCell>, i: int, c: HeapCell)
    requires
        0 <= i < cells.len(),
        holds_handle(c) == holds_handle(cells[i]),
    ensures
        held_handles(cells.update(i, c)) == held_handles(cells),
{
    lemma_held_handles_update(cells, i, c);
}

/// Replacing a cell by a well-formed one keeps every cell well formed.
pub proof fn lemma_cells_wf_update(cells: Seq<HeapCell>, i: int, c: HeapCell)
    requires
        0 <= i < cells.len(),
        forall|j: int| 0 <= j < cells.len() ==> #[trigger] stream_cell_wf(cells[j]),
        stream_cell_wf(c),
    ensures
        forall|j: int| 0 <= j < cells.len() ==> #[trigger] stream_cell_wf(cells.update(i, c)[j]),
{
    assert forall|j: int| 0 <= j < cells.len() implies #[trigger] stream_cell_wf(cells.update(i, c)[j]) by {
        if j != i {
            assert(stream_cell_wf(cells[j]));
        }
    }
}

fn write_at(storage: &mut Vec<u8>, cursor: usize, bytes: &[u8])
    requires
        cursor + bytes@.len() <= usize::MAX,
    ensures
        final(storage)@ == written(old(storage)@, cursor as int, bytes@),
{
    let ghost old_bytes = storage@;
    let ghost base = if cursor > old_bytes.len() {
        old_bytes + Seq::new((cursor - old_bytes.len()) as nat, |i: int| 0u8)
    } else {
        old_bytes
    };
    while storage.len() < cursor
        invariant
            old_bytes.len() <= storage@.len() <= if cursor > old_bytes.len() { cursor as int } else { old_bytes.len() as int },
            storage@ == base.subrange(0, storage@.len() as int),
            base.len() == if cursor > old_bytes.len() { cursor as int } else { old_bytes.len() as int },
            base == if cursor > old_bytes.len() {
                old_bytes + Seq::new((cursor - old_bytes.len()) as nat, |i: int| 0u8)
            } else {
                old_bytes
            },
        decreases cursor - storage.len(),
    {
        storage.push(0);
        assert(storage@ =~= base.subrange(0, storage@.len() as int));
    }
    assert(storage@ =~= base);
    let mut k: usize = 0;
    while k < bytes.len()
        invariant
            k <= bytes@.len(),
            cursor + bytes@.len() <= usize::MAX,
            base.len() >= cursor,
            storage@.len() == if cursor + k > base.len() { cursor + k } else { base.len() as int },
            forall|j: int| 0 <= j < cursor ==> #[trigger] storage@[j] == base[j],
            forall|j: int| cursor <= j < cursor + k ==> #[trigger] storage@[j] == bytes@[j - cursor],
            forall|j: int| cursor + k <= j < base.len() ==> #[trigger] storage@[j] == base[j],
        decreases bytes.len() - k,
    {
        let position = cursor + k;
        if position < storage.len() {
            storage.set(position, bytes[k]);
        } else {
            storage.push(bytes[k]);
        }
        k = k + 1;
    }
    assert(storage@ =~= written(old_bytes, cursor as int, bytes@));
}

impl RequestHeap {
    /// The cell of a stream value of this heap.
    fn stream_index(&self, v: &Value) -> (r: Result<usize, RuntimeErrorKind>)
        ensures
            match stream_of(self@, *v) {
                Some(s) => r matches Ok(i) && i == handle_of(*v).index && v is Stream
                    && self@.cells[i as int] == (HeapCell::Stream { class: handle_of(*v).class, state: s }),
                None => not_a_stream(self@, *v, r),
            },
    {
        match v {
            Value::Stream(h) => {
                let i = h.index as usize;
                if i < self.cells.len() {
                    match &self.cells[i] {
                        HeapCell::Stream { class, .. } => {
                            if *class == h.class {
                                return Ok(i);
                            }
                        },
                        _ => {},
                    }
                }
                Err(RuntimeErrorKind::CrossRequestValue)
            },
            _ => Err(type_error("stream operation requires a stream object")),
        }
    }
}

impl RequestHeap {
    fn stream_closed_at(&self, i: usize) -> (closed: bool)
        requires
            i < self@.cells.len(),
            self@.cells[i as int] is Stream,
        ensures
            self@.cells[i as int] matches HeapCell::Stream { state, .. } && closed == state.closed,
    {
        match &self.cells[i] {
            HeapCell::Stream { state, .. } => state.closed,
            _ => false,
        }
    }
}

impl Value {
    /// The shared cursor of a stream.
    pub fn stream_tell(&self, heap: &RequestHeap) -> (position: Result<usize, RuntimeErrorKind>)
        ensures
            match stream_of(heap@, *self) {
                Some(s) => if s.closed {
                    io_failure(position, "stream is closed"@)
                } else {
                    position == Ok::<usize, RuntimeErrorKind>(s.cursor)
                },
                None => not_a_stream(heap@, *self, position),
            },
    {
        let i = heap.stream_index(self)?;
        match &heap.cells[i] {
            HeapCell::Stream { state, .. } => {
                if state.closed {
                    Err(io_error("stream is closed"))
                } else {
                    Ok(state.cursor)
                }
            },
            _ => Err(RuntimeErrorKind::CrossRequestValue),
        }
    }

    /// Whether a stream is closed.
    pub fn stream_is_closed(&self, heap: &RequestHeap) -> (closed: Result<bool, RuntimeErrorKind>)
        ensures
            match stream_of(heap@, *self) {
                Some(s) => closed == Ok::<bool, RuntimeErrorKind>(s.closed),
                None => not_a_stream(heap@, *self, closed),
            },
    {
        let i = heap.stream_index(self)?;
        match &heap.cells[i] {
            HeapCell::Stream { state, .. } => Ok(state.closed),
            _ => Err(RuntimeErrorKind::CrossRequestValue),
        }
    }

    /// Whether a stream's cursor is at or past its end.
    pub fn stream_eof(&self, heap: &RequestHeap) -> (eof: Result<bool, RuntimeErrorKind>)
        ensures
            match stream_of(heap@, *self) {
                Some(s) => if s.closed {
                    io_failure(eof, "stream is closed"@)
                } else {
                    eof == Ok::<bool, RuntimeErrorKind>(s.cursor >= stream_bytes(s).len())
                },
                None => not_a_stream(heap@, *self, eof),
            },
    {
        let i = heap.stream_index(self)?;
        match &heap.cells[i] {
            HeapCell::Stream { state, .. } => {
                if state.closed {
                    return Err(io_error("stream is closed"));
                }
                match &state.storage {
                    StreamStorage::Memory(bytes) => Ok(state.cursor >= bytes.len()),
                    StreamStorage::Closed => Ok(state.cursor >= 0),
                }
            },
            _ => Err(RuntimeErrorKind::CrossRequestValue),
        }
    }

    /// Moves a stream's shared cursor to an absolute position.
    pub fn stream_seek(&self, heap: &mut RequestHeap, position: usize) -> (done: Result<(), RuntimeErrorKind>)
        requires
            heap_wf(old(heap)@),
        ensures
            heap_wf(final(heap)@),
            match stream_of(old(heap)@, *self) {
                Some(s) => if s.closed {
                    io_failure(done, "stream is closed"@) && final(heap)@ == old(heap)@
                } else {
                    done is Ok && final(heap)@ == with_stream(old(heap)@, *self, StreamState { cursor: position, ..s })
                },
                None => not_a_stream(old(heap)@, *self, done) && final(heap)@ == old(heap)@,
            },
    {
        let i = heap.stream_index(self)?;
        if heap.stream_closed_at(i) {
            return Err(io_error("stream is closed"));
        }
        let ghost cells = heap.cells@;
        assert(stream_cell_wf(cells[i as int]));
        match &mut heap.cells[i] {
            HeapCell::Stream { state, .. } => {
                state.cursor = position;
            },
            _ => {},
        }
        proof {
            lemma_same_handles(cells, i as int, heap.cells@[i as int]);
            lemma_cells_wf_update(cells, i as int, heap.cells@[i as int]);
        }
        Ok(())
    }

    /// Reads up to `length` bytes at a stream's cursor and advances it.
    pub fn stream_read(&self, heap: &mut RequestHeap, length: usize) -> (bytes: Result<Vec<u8>, RuntimeErrorKind>)
        requires
            heap_wf(old(heap)@),
        ensures
            heap_wf(final(heap)@),
            match stream_of(old(heap)@, *self) {
                Some(s) => if s.closed {
                    io_failure(bytes, "stream is closed"@) && final(heap)@ == old(heap)@
                } else {
                    let end = if s.cursor >= stream_bytes(s).len() {
                        s.cursor as int
                    } else if s.cursor + length < stream_bytes(s).len() {
                        s.cursor + length
                    } else {
                        stream_bytes(s).len() as int
                    };
                    &&& bytes matches Ok(out) && out@ == if s.cursor >= stream_bytes(s).len() {
                        Seq::<u8>::empty()
                    } else {
                        stream_bytes(s).subrange(s.cursor as int, end)
                    }
                    &&& final(heap)@ == with_stream(old(heap)@, *self, StreamState { cursor: end as usize, ..s })
                },
                None => not_a_stream(old(heap)@, *self, bytes) && final(heap)@ == old(heap)@,
            },
    {
        let i = heap.stream_index(self)?;
        assert(stream_cell_wf(heap.cells@[i as int]));
        let (out, end) = match &heap.cells[i] {
            HeapCell::Stream { state, .. } => {
                if state.closed {
                    return Err(io_error("stream is closed"));
                }
                match &state.storage {
                    StreamStorage::Memory(data) => {
                        let start = state.cursor;
                        if start >= data.len() {
                            let empty: Vec<u8> = Vec::new();
                            (empty, start)
                        } else {
                            let end = if length < data.len() - start {
                                start + length
                            } else {
                                data.len()
                            };
                            (crate::text::copy_range(data.as_slice(), start, end), end)
                        }
                    },
                    StreamStorage::Closed => return Err(io_error("stream is closed")),
                }
            },
            _ => return Err(RuntimeErrorKind::CrossRequestValue),
        };
        let ghost cells = heap.cells@;
        match &mut heap.cells[i] {
            HeapCell::Stream { state, .. } => {
                state.cursor = end;
            },
            _ => {},
        }
        proof {
            lemma_same_handles(cells, i as int, heap.cells@[i as int]);
            lemma_cells_wf_update(cells, i as int, heap.cells@[i as int]);
        }
        Ok(out)
    }

    /// Reads everything from a stream's cursor to its end, unless more than
    /// `limit` bytes remain.
    pub fn stream_read_all(&self, heap: &mut RequestHeap, limit: Option<usize>) -> (bytes: Result<
        Vec<u8>,
        RuntimeErrorKind,
    >)
        requires
            heap_wf(old(heap)@),
        ensures
            heap_wf(final(heap)@),
            match stream_of(old(heap)@, *self) {
                Some(s) => if s.closed {
                    io_failure(bytes, "stream is closed"@) && final(heap)@ == old(heap)@
                } else if limit matches Some(l) && stream_bytes(s).len() - s.cursor > l {
                    io_failure(bytes, "stream read limit exceeded"@) && final(heap)@ == old(heap)@
                } else if s.cursor >= stream_bytes(s).len() {
                    &&& bytes matches Ok(out) && out@.len() == 0
                    &&& final(heap)@ == old(heap)@
                } else {
                    &&& bytes matches Ok(out) && out@ == stream_bytes(s).subrange(s.cursor as int, stream_bytes(s).len() as int)
                    &&& final(heap)@ == with_stream(old(heap)@, *self, StreamState { cursor: stream_bytes(s).len() as usize, ..s })
                },
                None => not_a_stream(old(heap)@, *self, bytes) && final(heap)@ == old(heap)@,
            },
    {
        let i = heap.stream_index(self)?;
        assert(stream_cell_wf(heap.cells@[i as int]));
        let (out, end) = match &heap.cells[i] {
            HeapCell::Stream { state, .. } => {
                if state.closed {
                    return Err(io_error("stream is closed"));
                }
                match &state.storage {
                    StreamStorage::Memory(data) => {
                        let start = state.cursor;
                        if start >= data.len() {
                            return Ok(Vec::new());
                        }
                        if let Some(l) = limit {
                            if data.len() - start > l {
                                return Err(io_error("stream read limit exceeded"));
                            }
                        }
                        (crate::text::copy_range(data.as_slice(), start, data.len()), data.len())
                    },
                    StreamStorage::Closed => return Err(io_error("stream is closed")),
                }
            },
            _ => return Err(RuntimeErrorKind::CrossRequestValue),
        };
        let ghost cells = heap.cells@;
        match &mut heap.cells[i] {
            HeapCell::Stream { state, .. } => {
                state.cursor = end;
            },
            _ => {},
        }
        proof {
            lemma_same_handles(cells, i as int, heap.cells@[i as int]);
            lemma_cells_wf_update(cells, i as int, heap.cells@[i as int]);
        }
        Ok(out)
    }

    /// Writes `bytes` at a stream's cursor, zero-filling any gap, and
    /// moves the cursor past them; growth is charged to the heap.
    pub fn stream_write_all(&self, heap: &mut RequestHeap, bytes: &[u8]) -> (done: Result<(), RuntimeErrorKind>)
        requires
            heap_wf(old(heap)@),
        ensures
            heap_wf(final(heap)@),
            match stream_of(old(heap)@, *self) {
                Some(s) => if s.closed {
                    io_failure(done, "stream is closed"@) && final(heap)@ == old(heap)@
                } else if s.cursor + bytes@.len() > usize::MAX {
                    io_failure(done, "stream position overflow"@) && final(heap)@ == old(heap)@
                } else {
                    let end = s.cursor + bytes@.len();
                    let spill = !s.spilled && (s.spill_threshold matches Some(t) && end > t);
                    let growth = if end > stream_bytes(s).len() { end - stream_bytes(s).len() } else { 0 };
                    if s.spilled || spill {
                        &&& done is Ok
                        &&& stream_of(final(heap)@, *self) matches Some(n)
                        &&& stream_bytes(n) == written(stream_bytes(s), s.cursor as int, bytes@)
                        &&& n.cursor == end
                        &&& !n.closed
                        &&& n.spilled
                        &&& n.spill_threshold == s.spill_threshold
                        &&& n.holds_handle == s.holds_handle
                        &&& final(heap)@ == (HeapModel {
                            cells: old(heap)@.cells.update(handle_of(*self).index as int, final(heap)@.cells[handle_of(*self).index as int]),
                            current_bytes: if !spill {
                                old(heap)@.current_bytes
                            } else if old(heap)@.current_bytes >= stream_bytes(s).len() {
                                (old(heap)@.current_bytes - stream_bytes(s).len()) as nat
                            } else {
                                0
                            },
                            ..old(heap)@
                        })
                    } else {
                        match charged(old(heap)@, growth as nat) {
                            Err(e) => done == Err::<(), RuntimeErrorKind>(e) && final(heap)@ == old(heap)@,
                            Ok(h) => {
                                &&& done is Ok
                                &&& stream_of(final(heap)@, *self) matches Some(n)
                                &&& stream_bytes(n) == written(stream_bytes(s), s.cursor as int, bytes@)
                                &&& n.cursor == end
                                &&& !n.closed
                                &&& !n.spilled
                                &&& n.spill_threshold == s.spill_threshold
                                &&& n.holds_handle == s.holds_handle
                                &&& final(heap)@ == (HeapModel {
                                    cells: old(heap)@.cells.update(handle_of(*self).index as int, final(heap)@.cells[handle_of(*self).index as int]),
                                    ..h
                                })
                            },
                        }
                    }
                },
                None => not_a_stream(old(heap)@, *self, done) && final(heap)@ == old(heap)@,
            },
    {
        let i = heap.stream_index(self)?;
        assert(stream_cell_wf(heap.cells@[i as int]));
        let (cursor, length, spilled, threshold) = match &heap.cells[i] {
            HeapCell::Stream { state, .. } => {
                if state.closed {
                    return Err(io_error("stream is closed"));
                }
                match &state.storage {
                    StreamStorage::Memory(data) => (state.cursor, data.len(), state.spilled, state.spill_threshold),
                    StreamStorage::Closed => return Err(io_error("stream is closed")),
                }
            },
            _ => return Err(RuntimeErrorKind::CrossRequestValue),
        };
        let end = match cursor.checked_add(bytes.len()) {
            Some(end) => end,
            None => return Err(io_error("stream position overflow")),
        };
        let spill = !spilled && match threshold {
            Some(t) => end > t,
            None => false,
        };
        if spill {
            heap.release(length);
        } else if !spilled {
            let growth = if end > length { end - length } else { 0 };
            heap.charge(growth)?;
        }
        let ghost cells = heap.cells@;
        match &mut heap.cells[i] {
            HeapCell::Stream { state, .. } => {
                match &mut state.storage {
                    StreamStorage::Memory(data) => {
                        write_at(data, cursor, bytes);
                    },
                    StreamStorage::Closed => {},
                }
                state.cursor = end;
                state.spilled = spilled || spill;
            },
            _ => {},
        }
        proof {
            lemma_same_handles(cells, i as int, heap.cells@[i as int]);
            lemma_cells_wf_update(cells, i as int, heap.cells@[i as int]);
        }
        Ok(())
    }

    /// Closes a stream: its bytes and its handle are released. Closing a
    /// closed stream does nothing.
    pub fn stream_close(&self, heap: &mut RequestHeap) -> (done: Result<(), RuntimeErrorKind>)
        requires
            heap_wf(old(heap)@),
        ensures
            heap_wf(final(heap)@),
            match stream_of(old(heap)@, *self) {
                Some(s) => done is Ok && if s.closed {
                    final(heap)@ == old(heap)@
                } else {
                    let released = if s.spilled { 0 } else { stream_bytes(s).len() };
                    final(heap)@ == (HeapModel {
                        cells: with_stream(
                            old(heap)@,
                            *self,
                            StreamState { storage: StreamStorage::Closed, closed: true, holds_handle: false, ..s },
                        ).cells,
                        current_bytes: if old(heap)@.current_bytes >= released {
                            (old(heap)@.current_bytes - released) as nat
                        } else {
                            0
                        },
                        open_handles: if s.holds_handle { (old(heap)@.open_handles - 1) as nat } else { old(heap)@.open_handles },
                        ..old(heap)@
                    })
                },
                None => not_a_stream(old(heap)@, *self, done) && final(heap)@ == old(heap)@,
            },
    {
        let i = heap.stream_index(self)?;
        if heap.stream_closed_at(i) {
            return Ok(());
        }
        let ghost cells = heap.cells@;
        let (released, held) = match &mut heap.cells[i] {
            HeapCell::Stream { state, .. } => {
                let released = match &state.storage {
                    StreamStorage::Memory(data) => if state.spilled { 0 } else { data.len() },
                    StreamStorage::Closed => 0,
                };
                let held = state.holds_handle;
                state.storage = StreamStorage::Closed;
                state.closed = true;
                state.holds_handle = false;
                (released, held)
            },
            _ => (0, false),
        };
        proof {
            lemma_held_handles_update(cells, i as int, heap.cells@[i as int]);
            lemma_cells_wf_update(cells, i as int, heap.cells@[i as int]);
        }
        if held {
            heap.open_handles = heap.open_handles - 1;
        }
        heap.release(released);
        Ok(())
    }
}

/// The error an exception operation reports for a value that is not a
/// throwable of this heap.
pub open spec fn not_an_exception<T>(v: Value, r: Result<T, RuntimeErrorKind>, message: Seq<char>) -> bool {
    if v is Exception {
        r matches Err(RuntimeErrorKind::CrossRequestValue)
    } else {
        type_failure(r, message)
    }
}

/// The heap with the throwable that `v` designates in state `s`.
pub open spec fn with_exception(h: HeapModel, v: Value, s: ExceptionState) -> HeapModel {
    HeapModel {
        cells: h.cells.update(handle_of(v).index as int, HeapCell::Exception { class: handle_of(v).class, state: s }),
        ..h
    }
}

/// The previous throwable of `v`: `None` when `v` is not a throwable of
/// this heap.
pub open spec fn previous_of(h: HeapModel, v: Value) -> Option<Option<Value>> {
    match exception_of(h, v) {
        Some(s) => Some(s.previous),
        None => None,
    }
}

/// How a walk along a previous chain ended.
pub enum ChainWalk {
    /// The walk met the throwable it looked for.
    Found,
    /// A member of the chain is not a throwable.
    Unthrowable,
    /// The chain ended.
    End,
    /// The chain is longer than the walk may go.
    TooDeep,
}

/// Walks the previous chain from `member`, `depth` links in, looking for
/// `target`.
pub open spec fn scan_chain(h: HeapModel, target: Value, member: Value, depth: nat) -> ChainWalk
    decreases 1024 - depth,
{
    if value_eq(member, target) {
        ChainWalk::Found
    } else {
        match previous_of(h, member) {
            None => ChainWalk::Unthrowable,
            Some(None) => ChainWalk::End,
            Some(Some(next)) => if depth >= 1023 {
                ChainWalk::TooDeep
            } else {
                scan_chain(h, target, next, depth + 1)
            },
        }
    }
}

/// Where appending to a previous chain ends.
pub enum ChainEnd {
    /// The last member, whose previous throwable is to be set.
    Last(Value),
    /// The throwable to append is already linked.
    Linked,
    Unthrowable,
    Cyclic,
    TooDeep,
}

/// Walks the previous chain of `owner` from `current`, `step` links in,
/// to the member whose previous throwable becomes `pending`.
pub open spec fn chain_end(h: HeapModel, owner: Value, pending: Value, current: Value, step: nat) -> ChainEnd
    decreases 1024 - step,
{
    if step >= 1024 {
        ChainEnd::TooDeep
    } else {
        match previous_of(h, current) {
            None => ChainEnd::Unthrowable,
            Some(None) => ChainEnd::Last(current),
            Some(Some(next)) => if value_eq(next, pending) {
                ChainEnd::Linked
            } else if value_eq(next, current) || value_eq(next, owner) {
                ChainEnd::Cyclic
            } else {
                chain_end(h, owner, pending, next, step + 1)
            },
        }
    }
}

/// What `append_previous` does to the heap, or the error it reports:
/// whether it is a bounds error, and its message. Linking the last member
/// of the chain to a throwable whose own chain reaches that member would
/// close a cycle, and is refused as one.
pub open spec fn appended(h: HeapModel, owner: Value, pending: Value) -> Result<HeapModel, (bool, Seq<char>)> {
    match scan_chain(h, owner, pending, 0) {
        ChainWalk::Found => Ok(h),
        ChainWalk::Unthrowable => Err((false, "previous chaining requires throwable objects"@)),
        ChainWalk::TooDeep => Err((true, "throwable previous chain exceeds 1024 entries"@)),
        ChainWalk::End => match chain_end(h, owner, pending, owner, 0) {
            ChainEnd::Last(last) => if scan_chain(h, last, pending, 0) is Found {
                Err((false, "throwable previous chain is cyclic"@))
            } else {
                Ok(with_exception(h, last, ExceptionState { previous: Some(pending), ..exception_of(h, last)->0 }))
            },
            ChainEnd::Linked => Ok(h),
            ChainEnd::Unthrowable => Err((false, "previous chaining requires throwable objects"@)),
            ChainEnd::Cyclic => Err((false, "throwable previous chain is cyclic"@)),
            ChainEnd::TooDeep => Err((true, "throwable previous chain exceeds 1024 entries"@)),
        },
    }
}

impl RequestHeap {
    /// The cell of a throwable value of this heap.
    fn exception_index(&self, v: &Value, message: &str) -> (r: Result<usize, RuntimeErrorKind>)
        ensures
            match exception_of(self@, *v) {
                Some(s) => r matches Ok(i) && i == handle_of(*v).index && v is Exception
                    && self@.cells[i as int] == (HeapCell::Exception { class: handle_of(*v).class, state: s }),
                None => not_an_exception(*v, r, message@),
            },
    {
        match v {
            Value::Exception(h) => {
                let i = h.index as usize;
                if i < self.cells.len() {
                    match &self.cells[i] {
                        HeapCell::Exception { class, .. } => {
                            if *class == h.class {
                                return Ok(i);
                            }
                        },
                        _ => {},
                    }
                }
                Err(RuntimeErrorKind::CrossRequestValue)
            },
            _ => Err(type_error(message)),
        }
    }

    /// Whether a value may be stored in this heap.
    fn admits(&self, v: &Value) -> (ok: bool)
        ensures
            ok == belongs(self@, *v),
    {
        let (i, class) = match v {
            Value::Object(h) | Value::Stream(h) | Value::Exception(h) => (h.index as usize, h.class),
            _ => return true,
        };
        if i >= self.cells.len() {
            return false;
        }
        match (v, &self.cells[i]) {
            (Value::Object(_), HeapCell::Object { class: c, .. }) => *c == class,
            (Value::Stream(_), HeapCell::Stream { class: c, .. }) => *c == class,
            (Value::Exception(_), HeapCell::Exception { class: c, .. }) => *c == class,
            _ => false,
        }
    }

    /// The previous throwable of a value.
    /// Whether the previous chain from `start` meets `target` within the
    /// walk's depth.
    fn chain_reaches(&self, start: &Value, target: &Value) -> (found: bool)
        ensures
            found == (scan_chain(self@, *target, *start, 0) is Found),
    {
        let mut member = start.clone();
        let mut depth: usize = 0;
        loop
            invariant
                depth < 1024,
                scan_chain(self@, *target, *start, 0) == scan_chain(self@, *target, member, depth as nat),
            decreases 1024 - depth,
        {
            if member.equals(target) {
                return true;
            }
            let next = match self.previous(&member) {
                None => return false,
                Some(None) => return false,
                Some(Some(n)) => n,
            };
            if depth == 1023 {
                return false;
            }
            member = next;
            depth = depth + 1;
        }
    }

    fn previous(&self, v: &Value) -> (previous: Option<Option<Value>>)
        ensures
            previous == previous_of(self@, *v),
    {
        match self.exception_index(v, "") {
            Ok(i) => match &self.cells[i] {
                HeapCell::Exception { state, .. } => match &state.previous {
                    Some(p) => Some(Some(p.clone())),
                    None => Some(None),
                },
                _ => None,
            },
            Err(_) => None,
        }
    }

    /// Replaces the state of the throwable at `i`.
    fn set_exception(&mut self, i: usize, state: ExceptionState)
        requires
            heap_wf(old(self)@),
            i < old(self)@.cells.len(),
            old(self)@.cells[i as int] is Exception,
        ensures
            heap_wf(final(self)@),
            final(self)@ == (HeapModel {
                cells: old(self)@.cells.update(
                    i as int,
                    HeapCell::Exception { class: cell_class(old(self)@.cells[i as int]), state },
                ),
                ..old(self)@
            }),
    {
        let ghost cells = self.cells@;
        match &mut self.cells[i] {
            HeapCell::Exception { state: slot, .. } => {
                *slot = state;
            },
            _ => {},
        }
        proof {
            lemma_same_handles(cells, i as int, self.cells@[i as int]);
            lemma_cells_wf_update(cells, i as int, self.cells@[i as int]);
        }
    }

    fn take_exception_state(&mut self, i: usize) -> (state: ExceptionState)
        requires
            heap_wf(old(self)@),
            i < old(self)@.cells.len(),
            old(self)@.cells[i as int] is Exception,
        ensures
            heap_wf(final(self)@),
            old(self)@.cells[i as int] == (HeapCell::Exception { class: cell_class(old(self)@.cells[i as int]), state }),
            final(self)@.cells.len() == old(self)@.cells.len(),
            final(self)@.cells[i as int] is Exception,
            cell_class(final(self)@.cells[i as int]) == cell_class(old(self)@.cells[i as int]),
            final(self)@ == (HeapModel { cells: final(self)@.cells, ..old(self)@ }),
            final(self)@.cells == old(self)@.cells.update(i as int, final(self)@.cells[i as int]),
    {
        let ghost cells = self.cells@;
        let mut state = ExceptionState {
            properties: Vec::new(),
            message: Vec::new(),
            code: 0,
            previous: None,
            target: None,
            system_code: 0,
            suppressed: Vec::new(),
        };
        match &mut self.cells[i] {
            HeapCell::Exception { state: slot, .. } => {
                std::mem::swap(slot, &mut state);
            },
            _ => {},
        }
        proof {
            lemma_same_handles(cells, i as int, self.cells@[i as int]);
            lemma_cells_wf_update(cells, i as int, self.cells@[i as int]);
        }
        state
    }
}

impl Value {
    /// A throwable's message.
    pub fn exception_message(&self, heap: &RequestHeap) -> (message: Result<Vec<u8>, RuntimeErrorKind>)
        ensures
            match exception_of(heap@, *self) {
                Some(s) => message matches Ok(m) && m@ == s.message@,
                None => not_an_exception(*self, message, "exception method requires an exception object"@),
            },
    {
        let i = heap.exception_index(self, "exception method requires an exception object")?;
        match &heap.cells[i] {
            HeapCell::Exception { state, .. } => Ok(state.message.clone()),
            _ => Err(RuntimeErrorKind::CrossRequestValue),
        }
    }

    /// A throwable's application code.
    pub fn exception_code(&self, heap: &RequestHeap) -> (code: Result<i64, RuntimeErrorKind>)
        ensures
            match exception_of(heap@, *self) {
                Some(s) => code == Ok::<i64, RuntimeErrorKind>(s.code),
                None => not_an_exception(*self, code, "exception method requires an exception object"@),
            },
    {
        let i = heap.exception_index(self, "exception method requires an exception object")?;
        match &heap.cells[i] {
            HeapCell::Exception { state, .. } => Ok(state.code),
            _ => Err(RuntimeErrorKind::CrossRequestValue),
        }
    }

    /// A throwable's platform error code.
    pub fn exception_system_code(&self, heap: &RequestHeap) -> (code: Result<i64, RuntimeErrorKind>)
        ensures
            match exception_of(heap@, *self) {
                Some(s) => code == Ok::<i64, RuntimeErrorKind>(s.system_code),
                None => not_an_exception(*self, code, "exception method requires an exception object"@),
            },
    {
        let i = heap.exception_index(self, "exception method requires an exception object")?;
        match &heap.cells[i] {
            HeapCell::Exception { state, .. } => Ok(state.system_code),
            _ => Err(RuntimeErrorKind::CrossRequestValue),
        }
    }

    /// A throwable's target, or no bytes.
    pub fn exception_target<'a>(&self, heap: &'a RequestHeap) -> (target: Result<&'a [u8], RuntimeErrorKind>)
        ensures
            match exception_of(heap@, *self) {
                Some(s) => target matches Ok(t) && t@ == match s.target {
                    Some(v) => v@,
                    None => Seq::<u8>::empty(),
                },
                None => not_an_exception(*self, target, "exception method requires an exception object"@),
            },
    {
        let i = heap.exception_index(self, "exception method requires an exception object")?;
        match &heap.cells[i] {
            HeapCell::Exception { state, .. } => match &state.target {
                Some(t) => Ok(t.as_slice()),
                None => {
                    let empty: &[u8] = &[];
                    assert(empty@ =~= Seq::<u8>::empty());
                    Ok(empty)
                },
            },
            _ => Err(RuntimeErrorKind::CrossRequestValue),
        }
    }

    /// A throwable's previous throwable, or null.
    pub fn exception_previous(&self, heap: &RequestHeap) -> (previous: Result<Value, RuntimeErrorKind>)
        ensures
            match exception_of(heap@, *self) {
                Some(s) => previous == Ok::<Value, RuntimeErrorKind>(match s.previous {
                    Some(p) => p,
                    None => Value::Null,
                }),
                None => not_an_exception(*self, previous, "exception method requires an exception object"@),
            },
    {
        let i = heap.exception_index(self, "exception method requires an exception object")?;
        match &heap.cells[i] {
            HeapCell::Exception { state, .. } => match &state.previous {
                Some(p) => Ok(p.clone()),
                None => Ok(Value::Null),
            },
            _ => Err(RuntimeErrorKind::CrossRequestValue),
        }
    }

    /// The exceptions suppressed while this one was handled.
    pub fn exception_suppressed(&self, heap: &RequestHeap) -> (suppressed: Result<Vec<Value>, RuntimeErrorKind>)
        ensures
            match exception_of(heap@, *self) {
                Some(s) => suppressed matches Ok(v) && v@ == s.suppressed@,
                None => not_an_exception(*self, suppressed, "exception method requires an exception object"@),
            },
    {
        let i = heap.exception_index(self, "exception method requires an exception object")?;
        match &heap.cells[i] {
            HeapCell::Exception { state, .. } => {
                let copy = state.suppressed.clone();
                assert(copy@ =~= state.suppressed@);
                Ok(copy)
            },
            _ => Err(RuntimeErrorKind::CrossRequestValue),
        }
    }

    /// Sets a throwable's message, code and previous throwable.
    pub fn initialize_exception(
        &self,
        heap: &mut RequestHeap,
        message_value: Vec<u8>,
        code_value: i64,
        previous_value: Option<Value>,
    ) -> (done: Result<(), RuntimeErrorKind>)
        requires
            heap_wf(old(heap)@),
        ensures
            heap_wf(final(heap)@),
            if previous_value matches Some(p) && !belongs(old(heap)@, p) {
                done == Err::<(), RuntimeErrorKind>(RuntimeErrorKind::CrossRequestValue) && final(heap)@ == old(heap)@
            } else {
                match exception_of(old(heap)@, *self) {
                    Some(s) => done is Ok && final(heap)@ == with_exception(
                        old(heap)@,
                        *self,
                        ExceptionState { message: message_value, code: code_value, previous: previous_value, ..s },
                    ),
                    None => not_an_exception(*self, done, "exception constructor requires a throwable object"@)
                        && final(heap)@ == old(heap)@,
                }
            },
    {
        if let Some(p) = &previous_value {
            if !heap.admits(p) {
                return Err(RuntimeErrorKind::CrossRequestValue);
            }
        }
        let i = heap.exception_index(self, "exception constructor requires a throwable object")?;
        let state = heap.take_exception_state(i);
        let updated = ExceptionState {
            properties: state.properties,
            message: message_value,
            code: code_value,
            previous: previous_value,
            target: state.target,
            system_code: state.system_code,
            suppressed: state.suppressed,
        };
        let ghost expected = ExceptionState { message: message_value, code: code_value, previous: previous_value, ..state };
        assert(updated == expected);
        heap.set_exception(i, updated);
        assert(heap@.cells =~= with_exception(old(heap)@, *self, expected).cells);
        Ok(())
    }

    /// Records a cleanup failure on a throwable.
    pub fn add_suppressed(&self, heap: &mut RequestHeap, exception: Value) -> (done: Result<(), RuntimeErrorKind>)
        requires
            heap_wf(old(heap)@),
        ensures
            heap_wf(final(heap)@),
            if !belongs(old(heap)@, exception) {
                done == Err::<(), RuntimeErrorKind>(RuntimeErrorKind::CrossRequestValue) && final(heap)@ == old(heap)@
            } else {
                match exception_of(old(heap)@, *self) {
                    Some(s) => {
                        &&& done is Ok
                        &&& exception_of(final(heap)@, *self) matches Some(n)
                        &&& n.suppressed@ == s.suppressed@.push(exception)
                        &&& n.properties == s.properties
                        &&& n.message == s.message
                        &&& n.code == s.code
                        &&& n.previous == s.previous
                        &&& n.target == s.target
                        &&& n.system_code == s.system_code
                        &&& final(heap)@ == (HeapModel {
                            cells: old(heap)@.cells.update(handle_of(*self).index as int, final(heap)@.cells[handle_of(*self).index as int]),
                            ..old(heap)@
                        })
                    },
                    None => not_an_exception(*self, done, "exception method requires an exception object"@)
                        && final(heap)@ == old(heap)@,
                }
            },
    {
        if !heap.admits(&exception) {
            return Err(RuntimeErrorKind::CrossRequestValue);
        }
        let i = heap.exception_index(self, "exception method requires an exception object")?;
        let state = heap.take_exception_state(i);
        let mut suppressed = state.suppressed;
        suppressed.push(exception);
        let updated = ExceptionState {
            properties: state.properties,
            message: state.message,
            code: state.code,
            previous: state.previous,
            target: state.target,
            system_code: state.system_code,
            suppressed,
        };
        heap.set_exception(i, updated);
        assert(heap@.cells =~= old(heap)@.cells.update(i as int, heap@.cells[i as int]));
        Ok(())
    }
}

impl Value {
    /// Appends `pending` to the end of this throwable's previous chain,
    /// unless it is already in the chain or this throwable is in the
    /// chain of `pending`; the walk refuses non-throwables, cycles,
    /// chains of more than 1024 members, and a link that would make the
    /// chain cyclic because `pending`'s own chain leads back into it.
    pub fn append_previous(&self, heap: &mut RequestHeap, pending: Value) -> (done: Result<(), RuntimeErrorKind>)
        requires
            heap_wf(old(heap)@),
        ensures
            heap_wf(final(heap)@),
            if !belongs(old(heap)@, pending) {
                done == Err::<(), RuntimeErrorKind>(RuntimeErrorKind::CrossRequestValue) && final(heap)@ == old(heap)@
            } else {
                match appended(old(heap)@, *self, pending) {
                    Ok(h) => done is Ok && final(heap)@ == h,
                    Err((bounds, message)) => final(heap)@ == old(heap)@ && if bounds {
                        bounds_failure(done, message)
                    } else {
                        type_failure(done, message)
                    },
                }
            },
    {
        if !heap.admits(&pending) {
            return Err(RuntimeErrorKind::CrossRequestValue);
        }
        let ghost h0 = heap@;
        let mut member = pending.clone();
        let mut depth: usize = 0;
        loop
            invariant_except_break
                depth < 1024,
                scan_chain(h0, *self, pending, 0) == scan_chain(h0, *self, member, depth as nat),
            invariant
                heap@ == h0,
                h0 == old(heap)@,
                heap_wf(h0),
                belongs(h0, pending),
            ensures
                scan_chain(h0, *self, pending, 0) is End,
            decreases 1024 - depth,
        {
            if member.equals(self) {
                return Ok(());
            }
            let next = match heap.previous(&member) {
                None => return Err(type_error("previous chaining requires throwable objects")),
                Some(None) => break,
                Some(Some(n)) => n,
            };
            if depth == 1023 {
                return Err(bounds_error("throwable previous chain exceeds 1024 entries"));
            }
            member = next;
            depth = depth + 1;
        }
        let mut current = self.clone();
        let mut step: usize = 0;
        while step < 1024
            invariant
                step <= 1024,
                heap@ == h0,
                h0 == old(heap)@,
                heap_wf(h0),
                belongs(h0, pending),
                scan_chain(h0, *self, pending, 0) is End,
                chain_end(h0, *self, pending, *self, 0) == chain_end(h0, *self, pending, current, step as nat),
            decreases 1024 - step,
        {
            match heap.previous(&current) {
                None => {
                    return Err(type_error("previous chaining requires throwable objects"));
                },
                Some(Some(next)) => {
                    if next.equals(&pending) {
                        return Ok(());
                    }
                    if next.equals(&current) || next.equals(self) {
                        return Err(type_error("throwable previous chain is cyclic"));
                    }
                    current = next;
                    step = step + 1;
                },
                Some(None) => {
                    if heap.chain_reaches(&pending, &current) {
                        return Err(type_error("throwable previous chain is cyclic"));
                    }
                    let i = match heap.exception_index(&current, "previous chaining requires throwable objects") {
                        Ok(i) => i,
                        Err(e) => return Err(e),
                    };
                    let ghost last_state = exception_of(h0, current)->0;
                    let state = heap.take_exception_state(i);
                    let updated = ExceptionState {
                        properties: state.properties,
                        message: state.message,
                        code: state.code,
                        previous: Some(pending),
                        target: state.target,
                        system_code: state.system_code,
                        suppressed: state.suppressed,
                    };
                    assert(updated == ExceptionState { previous: Some(pending), ..last_state });
                    heap.set_exception(i, updated);
                    assert(heap@.cells =~= with_exception(h0, current, ExceptionState { previous: Some(pending), ..last_state }).cells);
                    return Ok(());
                },
            }
        }
        Err(bounds_error("throwable previous chain exceeds 1024 entries"))
    }
}

/// The properties of an object or throwable of this heap.
pub open spec fn properties_of(h: HeapModel, v: Value) -> Option<Seq<Option<Value>>> {
    match v {
        Value::Object(r) => object_at(h, r),
        Value::Exception(r) => match exception_at(h, r) {
            Some(s) => Some(s.properties@),
            None => None,
        },
        _ => None,
    }
}

/// The error a property operation reports for a value that is not an
/// object or throwable of this heap.
pub open spec fn not_an_object<T>(v: Value, r: Result<T, RuntimeErrorKind>, message: Seq<char>) -> bool {
    if v is Object || v is Exception {
        r matches Err(RuntimeErrorKind::CrossRequestValue)
    } else {
        type_failure(r, message)
    }
}

impl RequestHeap {
    /// The cell of an object or throwable value of this heap.
    fn object_index(&self, v: &Value, message: &str) -> (r: Result<usize, RuntimeErrorKind>)
        ensures
            match properties_of(self@, *v) {
                Some(p) => r matches Ok(i) && i == handle_of(*v).index && i < self@.cells.len() && (v is Object
                    || v is Exception) && match self@.cells[i as int] {
                    HeapCell::Object { properties, .. } => v is Object && properties@ == p,
                    HeapCell::Exception { state, .. } => v is Exception && state.properties@ == p,
                    _ => false,
                },
                None => not_an_object(*v, r, message@),
            },
    {
        let h = match v {
            Value::Object(h) | Value::Exception(h) => *h,
            _ => return Err(type_error(message)),
        };
        let i = h.index as usize;
        if i < self.cells.len() {
            match (v, &self.cells[i]) {
                (Value::Object(_), HeapCell::Object { class, .. }) => {
                    if *class == h.class {
                        return Ok(i);
                    }
                },
                (Value::Exception(_), HeapCell::Exception { class, .. }) => {
                    if *class == h.class {
                        return Ok(i);
                    }
                },
                _ => {},
            }
        }
        Err(RuntimeErrorKind::CrossRequestValue)
    }
}

impl Value {
    /// Reads an initialised property of an object or throwable.
    pub fn property(&self, heap: &RequestHeap, property: u32) -> (value: Result<Value, RuntimeErrorKind>)
        ensures
            match properties_of(heap@, *self) {
                Some(p) => if property >= p.len() {
                    bounds_failure(value, "property index out of bounds"@)
                } else {
                    match p[property as int] {
                        Some(v) => value == Ok::<Value, RuntimeErrorKind>(v),
                        None => value == Err::<Value, RuntimeErrorKind>(RuntimeErrorKind::UninitializedProperty(property)),
                    }
                },
                None => not_an_object(*self, value, "property access requires an object"@),
            },
    {
        let i = heap.object_index(self, "property access requires an object")?;
        let properties = match &heap.cells[i] {
            HeapCell::Object { properties, .. } => properties,
            HeapCell::Exception { state, .. } => &state.properties,
            _ => return Err(RuntimeErrorKind::CrossRequestValue),
        };
        if property as usize >= properties.len() {
            return Err(bounds_error("property index out of bounds"));
        }
        match &properties[property as usize] {
            Some(v) => Ok(v.clone()),
            None => Err(RuntimeErrorKind::UninitializedProperty(property)),
        }
    }

    /// Sets a property of an object or throwable; every value that shares
    /// the object sees the change.
    pub fn set_property(&self, heap: &mut RequestHeap, property: u32, value: Value) -> (done: Result<(), RuntimeErrorKind>)
        requires
            heap_wf(old(heap)@),
        ensures
            heap_wf(final(heap)@),
            if !belongs(old(heap)@, value) {
                done == Err::<(), RuntimeErrorKind>(RuntimeErrorKind::CrossRequestValue) && final(heap)@ == old(heap)@
            } else {
                match properties_of(old(heap)@, *self) {
                    Some(p) => if property >= p.len() {
                        bounds_failure(done, "property index out of bounds"@) && final(heap)@ == old(heap)@
                    } else {
                        &&& done is Ok
                        &&& properties_of(final(heap)@, *self) == Some(p.update(property as int, Some(value)))
                        &&& final(heap)@.cells.len() == old(heap)@.cells.len()
                        &&& forall|j: int| 0 <= j < old(heap)@.cells.len() && j != handle_of(*self).index
                            ==> final(heap)@.cells[j] == old(heap)@.cells[j]
                        &&& final(heap)@ == (HeapModel { cells: final(heap)@.cells, ..old(heap)@ })
                    },
                    None => not_an_object(*self, done, "property assignment requires an object"@)
                        && final(heap)@ == old(heap)@,
                }
            },
    {
        if !heap.admits(&value) {
            return Err(RuntimeErrorKind::CrossRequestValue);
        }
        let i = heap.object_index(self, "property assignment requires an object")?;
        let count = match &heap.cells[i] {
            HeapCell::Object { properties, .. } => properties.len(),
            HeapCell::Exception { state, .. } => state.properties.len(),
            _ => 0,
        };
        if property as usize >= count {
            return Err(bounds_error("property index out of bounds"));
        }
        let ghost cells = heap.cells@;
        match &mut heap.cells[i] {
            HeapCell::Object { properties, .. } => {
                properties.set(property as usize, Some(value));
            },
            HeapCell::Exception { state, .. } => {
                state.properties.set(property as usize, Some(value));
            },
            _ => {},
        }
        proof {
            lemma_same_handles(cells, i as int, heap.cells@[i as int]);
            lemma_cells_wf_update(cells, i as int, heap.cells@[i as int]);
        }
        Ok(())
    }
}

/// Reading back what a stream write wrote: the written bytes stand at the
/// cursor, the bytes before the cursor are kept (a gap reads as zeros) and
/// the stream ends at the later of its old end and the end of the write.
pub proof fn lemma_written_read_back(old: Seq<u8>, cursor: int, bytes: Seq<u8>)
    requires
        cursor >= 0,
    ensures
        written(old, cursor, bytes).subrange(cursor, cursor + bytes.len()) == bytes,
        written(old, cursor, bytes).len() == if cursor + bytes.len() > old.len() {
            cursor + bytes.len()
        } else {
            old.len() as int
        },
        forall|j: int| 0 <= j < cursor && j < old.len() ==> #[trigger] written(old, cursor, bytes)[j] == old[j],
        forall|j: int| old.len() <= j < cursor ==> #[trigger] written(old, cursor, bytes)[j] == 0u8,
        forall|j: int|
            cursor + bytes.len() <= j < old.len() ==> #[trigger] written(old, cursor, bytes)[j] == old[j],
{
    assert(written(old, cursor, bytes).subrange(cursor, cursor + bytes.len()) =~= bytes);
}

/// A new stream written from its start holds exactly what was written.
pub proof fn lemma_fresh_stream_write(bytes: Seq<u8>)
    ensures
        written(Seq::empty(), 0, bytes) == bytes,
{
    assert(written(Seq::empty(), 0, bytes) =~= bytes);
}

} // verus!
