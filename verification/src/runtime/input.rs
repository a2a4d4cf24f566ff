//! The request body: its size and time limits and how much of it has
//! been read.

use vstd::prelude::*;
use crate::runtime::error::RuntimeErrorKind;
use crate::text::{chars_of, push_chars, string_of};

verus! {

/// The stricter of two optional limits; `None` is no limit.
pub open spec fn stricter(left: Option<u128>, right: Option<u128>) -> Option<u128> {
    match (left, right) {
        (Some(a), Some(b)) => Some(if a <= b { a } else { b }),
        (Some(a), None) => Some(a),
        (None, Some(b)) => Some(b),
        (None, None) => None,
    }
}

/// The stricter of two optional limits.
pub fn stricter_limit(left: Option<u128>, right: Option<u128>) -> (limit: Option<u128>)
    ensures
        limit == stricter(left, right),
{
    match (left, right) {
        (Some(a), Some(b)) => Some(if a <= b { a } else { b }),
        (Some(a), None) => Some(a),
        (None, Some(b)) => Some(b),
        (None, None) => None,
    }
}

/// Most bytes one read returns, and most bytes asked of the reader at
/// once.
pub const READ_CHUNK: usize = 65536;

/// A streamed request body: its limits, how much the host's reader has
/// given, the logical read position, bytes put back to be read again, and
/// whether the reader reached its end or the body was closed. The bytes
/// themselves come from the host's reader, which the host drives through
/// `start_read` and `resume_read`.
pub struct RequestInput {
    declared_length: Option<u64>,
    max_bytes: Option<u64>,
    max_time_nanos: Option<u128>,
    consumed: u64,
    logical_position: u64,
    replay: Vec<u8>,
    eof: bool,
    closed: bool,
}

/// A request body as plain values.
#[verifier::ext_equal]
pub struct InputModel {
    pub declared_length: Option<u64>,
    pub max_bytes: Option<u64>,
    pub max_time_nanos: Option<u128>,
    pub consumed: u64,
    pub logical_position: u64,
    pub replay: Seq<u8>,
    pub eof: bool,
    pub closed: bool,
}

impl View for RequestInput {
    type V = InputModel;

    closed spec fn view(&self) -> InputModel {
        InputModel {
            declared_length: self.declared_length,
            max_bytes: self.max_bytes,
            max_time_nanos: self.max_time_nanos,
            consumed: self.consumed,
            logical_position: self.logical_position,
            replay: self.replay@,
            eof: self.eof,
            closed: self.closed,
        }
    }
}

/// A byte limit that the declared or consumed length already exceeds.
pub open spec fn exceeded_limit(declared_length: Option<u64>, consumed: u64, max_bytes: Option<u64>) -> Option<u64> {
    match max_bytes {
        Some(limit) => if (declared_length matches Some(length) && length > limit) || consumed > limit {
            Some(limit)
        } else {
            None
        },
        None => None,
    }
}

fn narrow_bytes(left: Option<u64>, right: Option<u64>) -> (limit: Option<u64>)
    ensures
        match stricter(
            match left {
                Some(a) => Some(a as u128),
                None => None,
            },
            match right {
                Some(b) => Some(b as u128),
                None => None,
            },
        ) {
            Some(l) => limit == Some(l as u64),
            None => limit is None,
        },
{
    match (left, right) {
        (Some(a), Some(b)) => Some(if a <= b { a } else { b }),
        (Some(a), None) => Some(a),
        (None, Some(b)) => Some(b),
        (None, None) => None,
    }
}

impl RequestInput {
    /// Every byte taken from the reader is behind the read position or
    /// waiting to be read again, so the position never passes what was
    /// consumed.
    #[verifier::type_invariant]
    spec fn accounts_for_its_bytes(&self) -> bool {
        self.logical_position + self.replay@.len() <= self.consumed
    }

    /// A request body with independent byte and time limits, nothing read
    /// yet; refused when the declared length already exceeds the byte
    /// limit.
    pub fn new(declared_length: Option<u64>, max_bytes: Option<u64>, max_time_nanos: Option<u128>) -> (input: Result<
        RequestInput,
        RuntimeErrorKind,
    >)
        ensures
            match exceeded_limit(declared_length, 0, max_bytes) {
                Some(limit) => input == Err::<RequestInput, RuntimeErrorKind>(RuntimeErrorKind::InputSizeLimit { limit }),
                None => input matches Ok(i) && i@ == (InputModel {
                    declared_length,
                    max_bytes,
                    max_time_nanos,
                    consumed: 0,
                    logical_position: 0,
                    replay: Seq::empty(),
                    eof: false,
                    closed: false,
                }),
            },
    {
        if let (Some(length), Some(limit)) = (declared_length, max_bytes) {
            if length > limit {
                return Err(RuntimeErrorKind::InputSizeLimit { limit });
            }
        }
        let input = RequestInput {
            declared_length,
            max_bytes,
            max_time_nanos,
            consumed: 0,
            logical_position: 0,
            replay: Vec::new(),
            eof: false,
            closed: false,
        };
        assert(input@.replay =~= Seq::<u8>::empty());
        Ok(input)
    }

    /// The logical read position.
    pub fn position(&self) -> (position: u64)
        ensures
            position == self@.logical_position,
            position <= self@.consumed,
            self@.logical_position + self@.replay.len() <= self@.consumed,
    {
        proof {
            use_type_invariant(self);
        }
        self.logical_position
    }

    /// How many bytes were taken from the host's reader.
    pub fn consumed_bytes(&self) -> (consumed: u64)
        ensures
            consumed == self@.consumed,
            self@.logical_position <= consumed,
    {
        proof {
            use_type_invariant(self);
        }
        self.consumed
    }

    /// Applies further limits; the stricter of each pair stays in force.
    /// Refused when the declared or consumed length exceeds the resulting
    /// byte limit (the limits are narrowed either way).
    pub fn apply_limits(&mut self, max_bytes: Option<u64>, max_time_nanos: Option<u128>) -> (applied: Result<
        (),
        RuntimeErrorKind,
    >)
        ensures
            final(self)@.declared_length == old(self)@.declared_length,
            final(self)@.consumed == old(self)@.consumed,
            final(self)@.logical_position == old(self)@.logical_position,
            final(self)@.replay == old(self)@.replay,
            final(self)@.eof == old(self)@.eof,
            final(self)@.closed == old(self)@.closed,
            final(self)@.max_time_nanos == stricter(old(self)@.max_time_nanos, max_time_nanos),
            match stricter(
                match old(self)@.max_bytes {
                    Some(a) => Some(a as u128),
                    None => None,
                },
                match max_bytes {
                    Some(b) => Some(b as u128),
                    None => None,
                },
            ) {
                Some(l) => final(self)@.max_bytes == Some(l as u64),
                None => final(self)@.max_bytes is None,
            },
            match exceeded_limit(final(self)@.declared_length, final(self)@.consumed, final(self)@.max_bytes) {
                Some(limit) => applied == Err::<(), RuntimeErrorKind>(RuntimeErrorKind::InputSizeLimit { limit }),
                None => applied is Ok,
            },
    {
        proof {
            use_type_invariant(&*self);
        }
        self.max_bytes = narrow_bytes(self.max_bytes, max_bytes);
        self.max_time_nanos = stricter_limit(self.max_time_nanos, max_time_nanos);
        if let Some(limit) = self.max_bytes {
            let declared_over = match self.declared_length {
                Some(length) => length > limit,
                None => false,
            };
            if declared_over || self.consumed > limit {
                return Err(RuntimeErrorKind::InputSizeLimit { limit });
            }
        }
        Ok(())
    }
}

/// Applying limits never loosens one: the result is no larger than
/// either limit in force, and it is absent only when both are.
pub proof fn lemma_limits_only_tighten(left: Option<u128>, right: Option<u128>)
    ensures
        left matches Some(a) ==> (stricter(left, right) matches Some(c) && c <= a),
        right matches Some(b) ==> (stricter(left, right) matches Some(c) && c <= b),
        stricter(left, right) is None <==> (left is None && right is None),
        stricter(left, right) == stricter(right, left),
{
}

/// A read in progress, waiting for the host's reader: the length the
/// read may return, what it holds so far, and how many bytes it asks of
/// the reader.
pub struct PendingRead {
    length: usize,
    output: Vec<u8>,
    asked: usize,
}

/// A read in progress as plain values.
pub struct PendingModel {
    pub length: int,
    pub output: Seq<u8>,
    pub asked: int,
}

impl View for PendingRead {
    type V = PendingModel;

    closed spec fn view(&self) -> PendingModel {
        PendingModel { length: self.length as int, output: self.output@, asked: self.asked as int }
    }
}

impl PendingRead {
    #[verifier::type_invariant]
    spec fn well_formed(&self) -> bool {
        &&& self.output@.len() < self.length <= READ_CHUNK
        &&& 0 < self.asked <= READ_CHUNK
        &&& self.asked <= self.length - self.output@.len()
    }

    /// How many bytes to ask of the reader.
    pub fn asked(&self) -> (asked: usize)
        ensures
            asked == self@.asked,
            0 < asked <= READ_CHUNK,
    {
        proof {
            use_type_invariant(self);
        }
        self.asked
    }
}

/// What a step of a read does next.
pub enum ReadStep {
    /// Ask the reader for at most `asked` bytes, then resume.
    Fetch(PendingRead),
    /// The read is over.
    Done(Result<Vec<u8>, RuntimeErrorKind>),
}

/// Why a read of the request body failed.
pub enum InputFailure {
    Io(Seq<char>),
    Size(u64),
    Time(u128),
}

/// What a step of a read does next, as plain values.
pub enum ReadOutcome {
    Fetch(PendingModel),
    Ready(Seq<u8>),
    Failed(InputFailure),
}

/// The runtime error that reports an input failure.
pub open spec fn reports(e: RuntimeErrorKind, f: InputFailure) -> bool {
    match f {
        InputFailure::Io(m) => e matches RuntimeErrorKind::Io(t) && t@ == m,
        InputFailure::Size(limit) => e == RuntimeErrorKind::InputSizeLimit { limit },
        InputFailure::Time(limit_nanos) => e == RuntimeErrorKind::InputTimeLimit { limit_nanos },
    }
}

/// A read step does what the outcome says.
pub open spec fn step_is(step: ReadStep, o: ReadOutcome) -> bool {
    match (step, o) {
        (ReadStep::Fetch(p), ReadOutcome::Fetch(m)) => p@ == m,
        (ReadStep::Done(Ok(v)), ReadOutcome::Ready(s)) => v@ == s,
        (ReadStep::Done(Err(e)), ReadOutcome::Failed(f)) => reports(e, f),
        _ => false,
    }
}

/// The time limit has run out after `elapsed_nanos`.
pub open spec fn expired(m: InputModel, elapsed_nanos: u128) -> bool {
    m.max_time_nanos matches Some(limit) && elapsed_nanos >= limit
}

/// How many bytes to ask of the reader when `remaining` are still
/// wanted: no more than the byte limit leaves, plus one to find out
/// whether the body goes past it, and no more than a chunk.
pub open spec fn fetch_size(max_bytes: Option<u64>, consumed: u64, remaining: int) -> int {
    let allowed = match max_bytes {
        Some(limit) => {
            let left = if limit > consumed { limit - consumed } else { 0 };
            if left < remaining { left } else { remaining }
        },
        None => remaining,
    };
    let probe = if allowed < remaining { allowed + 1 } else { allowed };
    if probe < READ_CHUNK { probe } else { READ_CHUNK as int }
}

/// A read that returns `out`: the position moves past it.
pub open spec fn finish(m: InputModel, out: Seq<u8>) -> (InputModel, ReadOutcome) {
    (InputModel { logical_position: m.logical_position.saturating_add(out.len() as u64), ..m }, ReadOutcome::Ready(out))
}

/// A read of `length` bytes that holds `out`, after the put-back bytes:
/// those go first; then it ends if it is full or the reader ended, or
/// else asks the reader for more.
pub open spec fn advance(m: InputModel, length: int, out: Seq<u8>) -> (InputModel, ReadOutcome) {
    let k = if m.replay.len() < length - out.len() { m.replay.len() as int } else { length - out.len() };
    let taken = out + m.replay.subrange(0, k);
    let next = InputModel { replay: m.replay.subrange(k, m.replay.len() as int), ..m };
    if taken.len() >= length || next.eof {
        finish(next, taken)
    } else {
        (next, ReadOutcome::Fetch(PendingModel { length, output: taken, asked: fetch_size(next.max_bytes, next.consumed, length - taken.len()) }))
    }
}

/// Starting a read of `length` bytes: refused on a closed body or once
/// the time limit ran out; otherwise at most a chunk is read.
pub open spec fn start(m: InputModel, length: int, elapsed_nanos: u128) -> (InputModel, ReadOutcome) {
    if m.closed {
        (m, ReadOutcome::Failed(InputFailure::Io("stream is closed"@)))
    } else if expired(m, elapsed_nanos) {
        (m, ReadOutcome::Failed(InputFailure::Time(m.max_time_nanos->0)))
    } else {
        advance(m, if length < READ_CHUNK { length } else { READ_CHUNK as int }, Seq::empty())
    }
}

/// Resuming a pending read with what the reader gave: a reader failure
/// or a run-out time limit fails the read; no bytes mean the reader
/// ended; bytes past the byte limit fail it; a short chunk ends it.
pub open spec fn resume(m: InputModel, p: PendingModel, got: Result<Seq<u8>, Seq<char>>, elapsed_nanos: u128) -> (InputModel, ReadOutcome) {
    match got {
        Err(message) => (m, ReadOutcome::Failed(InputFailure::Io("request input failed: "@ + message))),
        Ok(chunk) => if expired(m, elapsed_nanos) {
            (m, ReadOutcome::Failed(InputFailure::Time(m.max_time_nanos->0)))
        } else if chunk.len() == 0 {
            finish(InputModel { eof: true, ..m }, p.output)
        } else {
            let consumed = m.consumed.saturating_add(chunk.len() as u64);
            let grown = InputModel { consumed, ..m };
            if m.max_bytes matches Some(limit) && consumed > limit {
                (grown, ReadOutcome::Failed(InputFailure::Size(m.max_bytes->0)))
            } else if chunk.len() < p.asked {
                finish(grown, p.output + chunk)
            } else {
                advance(grown, p.length, p.output + chunk)
            }
        },
    }
}

fn fetch_size_of(max_bytes: Option<u64>, consumed: u64, remaining: usize) -> (size: usize)
    requires
        0 < remaining <= READ_CHUNK,
    ensures
        size == fetch_size(max_bytes, consumed, remaining as int),
        0 < size <= READ_CHUNK,
        size <= remaining,
{
    let allowed: usize = match max_bytes {
        Some(limit) => {
            let left: u64 = if limit > consumed { limit - consumed } else { 0 };
            if left < remaining as u64 { left as usize } else { remaining }
        },
        None => remaining,
    };
    let probe: usize = if allowed < remaining { allowed + 1 } else { allowed };
    if probe < READ_CHUNK { probe } else { READ_CHUNK }
}

/// The result of a read as it ends.
pub open spec fn got_view(got: Result<Vec<u8>, String>) -> Result<Seq<u8>, Seq<char>> {
    match got {
        Ok(v) => Ok(v@),
        Err(s) => Err(s@),
    }
}

impl RequestInput {
    /// Takes the put-back bytes into a read, then ends it or asks for more.
    fn advance_read(&mut self, length: usize, output: Vec<u8>) -> (step: ReadStep)
        requires
            output@.len() <= length <= READ_CHUNK,
            old(self)@.logical_position + old(self)@.replay.len() + output@.len() <= old(self)@.consumed,
        ensures
            final(self)@ == advance(old(self)@, length as int, output@).0,
            step_is(step, advance(old(self)@, length as int, output@).1),
    {
        proof {
            use_type_invariant(&*self);
        }
        let ghost m = self@;
        let ghost out0 = output@;
        let want = length - output.len();
        let k = if self.replay.len() < want { self.replay.len() } else { want };
        let mut output = output;
        let mut i: usize = 0;
        while i < k
            invariant
                self@ == m,
                k <= m.replay.len(),
                i <= k,
                output@ == out0 + m.replay.subrange(0, i as int),
            decreases k - i,
        {
            output.push(self.replay[i]);
            i = i + 1;
            assert(output@ =~= out0 + m.replay.subrange(0, i as int));
        }
        let mut rest: Vec<u8> = Vec::new();
        let mut j: usize = k;
        while j < self.replay.len()
            invariant
                self@ == m,
                k <= j <= m.replay.len(),
                rest@ == m.replay.subrange(k as int, j as int),
            decreases self.replay.len() - j,
        {
            rest.push(self.replay[j]);
            j = j + 1;
            assert(rest@ =~= m.replay.subrange(k as int, j as int));
        }
        self.replay = rest;
        if output.len() >= length || self.eof {
            self.logical_position = self.logical_position.saturating_add(output.len() as u64);
            return ReadStep::Done(Ok(output));
        }
        let asked = fetch_size_of(self.max_bytes, self.consumed, length - output.len());
        ReadStep::Fetch(PendingRead { length, output, asked })
    }

    /// Starts a read of at most `length` bytes, `elapsed_nanos` after the
    /// body was opened: it ends at once, or asks the host for bytes from
    /// its reader.
    pub fn start_read(&mut self, length: usize, elapsed_nanos: u128) -> (step: ReadStep)
        ensures
            final(self)@ == start(old(self)@, length as int, elapsed_nanos).0,
            step_is(step, start(old(self)@, length as int, elapsed_nanos).1),
    {
        proof {
            use_type_invariant(&*self);
        }
        if self.closed {
            return ReadStep::Done(Err(RuntimeErrorKind::Io("stream is closed".to_owned())));
        }
        if let Some(limit) = self.max_time_nanos {
            if elapsed_nanos >= limit {
                return ReadStep::Done(Err(RuntimeErrorKind::InputTimeLimit { limit_nanos: limit }));
            }
        }
        let length = if length < READ_CHUNK { length } else { READ_CHUNK };
        self.advance_read(length, Vec::new())
    }

    /// Resumes a read with what the host's reader gave for it (its bytes,
    /// or the text of its failure), `elapsed_nanos` after the body was
    /// opened.
    pub fn resume_read(&mut self, pending: PendingRead, got: Result<Vec<u8>, String>, elapsed_nanos: u128) -> (step: ReadStep)
        requires
            got matches Ok(chunk) ==> chunk@.len() <= pending@.asked && old(self)@.consumed + chunk@.len() <= u64::MAX,
            old(self)@.logical_position + old(self)@.replay.len() + pending@.output.len() <= old(self)@.consumed,
        ensures
            final(self)@ == resume(old(self)@, pending@, got_view(got), elapsed_nanos).0,
            step_is(step, resume(old(self)@, pending@, got_view(got), elapsed_nanos).1),
    {
        proof {
            use_type_invariant(&pending);
            use_type_invariant(&*self);
        }
        let PendingRead { length, output, asked } = pending;
        match got {
            Err(message) => {
                let mut text = chars_of("request input failed: ");
                let tail = chars_of(message.as_str());
                push_chars(&mut text, tail.as_slice());
                ReadStep::Done(Err(RuntimeErrorKind::Io(string_of(text.as_slice()))))
            },
            Ok(chunk) => {
                if let Some(limit) = self.max_time_nanos {
                    if elapsed_nanos >= limit {
                        return ReadStep::Done(Err(RuntimeErrorKind::InputTimeLimit { limit_nanos: limit }));
                    }
                }
                if chunk.len() == 0 {
                    self.eof = true;
                    self.logical_position = self.logical_position.saturating_add(output.len() as u64);
                    return ReadStep::Done(Ok(output));
                }
                self.consumed = self.consumed.saturating_add(chunk.len() as u64);
                if let Some(limit) = self.max_bytes {
                    if self.consumed > limit {
                        return ReadStep::Done(Err(RuntimeErrorKind::InputSizeLimit { limit }));
                    }
                }
                let mut output = output;
                let ghost before = output@;
                let mut i: usize = 0;
                while i < chunk.len()
                    invariant
                        i <= chunk@.len(),
                        output@ == before + chunk@.subrange(0, i as int),
                    decreases chunk.len() - i,
                {
                    output.push(chunk[i]);
                    i = i + 1;
                    assert(output@ =~= before + chunk@.subrange(0, i as int));
                }
                assert(chunk@.subrange(0, chunk@.len() as int) =~= chunk@);
                if chunk.len() < asked {
                    self.logical_position = self.logical_position.saturating_add(output.len() as u64);
                    return ReadStep::Done(Ok(output));
                }
                self.advance_read(length, output)
            },
        }
    }
}

/// The bytes of an in-memory request body and how far its reader got.
pub struct MemoryBody {
    bytes: Vec<u8>,
    position: usize,
}

impl View for MemoryBody {
    type V = (Seq<u8>, int);

    closed spec fn view(&self) -> (Seq<u8>, int) {
        (self.bytes@, self.position as int)
    }
}

impl MemoryBody {
    #[verifier::type_invariant]
    spec fn within(&self) -> bool {
        self.position <= self.bytes@.len()
    }

    /// Reads at most `max` bytes from where the reader stands.
    pub fn fetch(&mut self, max: usize) -> (chunk: Vec<u8>)
        ensures
            final(self)@.0 == old(self)@.0,
            chunk@ == old(self)@.0.subrange(old(self)@.1, final(self)@.1),
            final(self)@.1 == if old(self)@.1 + max < old(self)@.0.len() {
                old(self)@.1 + max
            } else {
                old(self)@.0.len() as int
            },
            chunk@.len() <= max,
    {
        proof {
            use_type_invariant(&*self);
        }
        let end = if max < self.bytes.len() - self.position { self.position + max } else { self.bytes.len() };
        let mut chunk: Vec<u8> = Vec::new();
        let mut i = self.position;
        while i < end
            invariant
                self.position <= i <= end <= self.bytes@.len(),
                chunk@ == self.bytes@.subrange(self.position as int, i as int),
            decreases end - i,
        {
            chunk.push(self.bytes[i]);
            i = i + 1;
            assert(chunk@ =~= self.bytes@.subrange(self.position as int, i as int));
        }
        self.position = end;
        chunk
    }
}

impl RequestInput {
    /// An empty body without limits.
    pub fn empty() -> (input: RequestInput)
        ensures
            input@ == (InputModel {
                declared_length: Some(0),
                max_bytes: None,
                max_time_nanos: None,
                consumed: 0,
                logical_position: 0,
                replay: Seq::empty(),
                eof: false,
                closed: false,
            }),
    {
        let input = RequestInput {
            declared_length: Some(0),
            max_bytes: None,
            max_time_nanos: None,
            consumed: 0,
            logical_position: 0,
            replay: Vec::new(),
            eof: false,
            closed: false,
        };
        assert(input@.replay =~= Seq::<u8>::empty());
        input
    }

    /// A body held in memory, with its reader; refused when it is longer
    /// than the byte limit.
    pub fn from_bytes(bytes: Vec<u8>, max_bytes: Option<u64>, max_time_nanos: Option<u128>) -> (made: Result<
        (RequestInput, MemoryBody),
        RuntimeErrorKind,
    >)
        ensures
            match exceeded_limit(Some(bytes@.len() as u64), 0, max_bytes) {
                Some(limit) => made == Err::<(RequestInput, MemoryBody), RuntimeErrorKind>(RuntimeErrorKind::InputSizeLimit { limit }),
                None => made matches Ok((i, body)) && i@ == (InputModel {
                    declared_length: Some(bytes@.len() as u64),
                    max_bytes,
                    max_time_nanos,
                    consumed: 0,
                    logical_position: 0,
                    replay: Seq::empty(),
                    eof: false,
                    closed: false,
                }) && body@ == (bytes@, 0int),
            },
    {
        let length = bytes.len() as u64;
        match RequestInput::new(Some(length), max_bytes, max_time_nanos) {
            Ok(input) => Ok((input, MemoryBody { bytes, position: 0 })),
            Err(e) => Err(e),
        }
    }

    /// Whether the body is known to be at its end: refused when closed;
    /// `None` when only reading one byte can tell.
    pub fn eof_known(&self) -> (known: Result<Option<bool>, RuntimeErrorKind>)
        ensures
            self@.closed ==> (known matches Err(RuntimeErrorKind::Io(m)) && m@ == "stream is closed"@),
            !self@.closed && self@.replay.len() > 0 ==> known == Ok::<Option<bool>, RuntimeErrorKind>(Some(false)),
            !self@.closed && self@.replay.len() == 0 && self@.eof ==> known == Ok::<Option<bool>, RuntimeErrorKind>(Some(true)),
            !self@.closed && self@.replay.len() == 0 && !self@.eof ==> known == Ok::<Option<bool>, RuntimeErrorKind>(None),
    {
        if self.closed {
            return Err(RuntimeErrorKind::Io("stream is closed".to_owned()));
        }
        if self.replay.len() > 0 {
            return Ok(Some(false));
        }
        if self.eof {
            return Ok(Some(true));
        }
        Ok(None)
    }

    /// Settles the end check with what a one-byte read returned: no byte
    /// means the end; a byte is put back to be read again.
    pub fn settle_eof(&mut self, probe: Vec<u8>) -> (at_end: bool)
        requires
            probe@.len() <= 1,
            probe@.len() == 1 ==> old(self)@.logical_position >= 1,
        ensures
            at_end == (probe@.len() == 0),
            probe@.len() == 0 ==> final(self)@ == old(self)@,
            probe@.len() == 1 ==> final(self)@ == (InputModel {
                logical_position: old(self)@.logical_position.saturating_sub(1),
                replay: seq![probe@[0]] + old(self)@.replay,
                ..old(self)@
            }),
    {
        proof {
            use_type_invariant(&*self);
        }
        if probe.len() == 0 {
            return true;
        }
        self.logical_position = self.logical_position.saturating_sub(1);
        let mut replay: Vec<u8> = Vec::new();
        replay.push(probe[0]);
        let mut j: usize = 0;
        while j < self.replay.len()
            invariant
                j <= self@.replay.len(),
                self@.replay == old(self)@.replay,
                replay@ == seq![probe@[0]] + old(self)@.replay.subrange(0, j as int),
            decreases self.replay.len() - j,
        {
            replay.push(self.replay[j]);
            j = j + 1;
            assert(replay@ =~= seq![probe@[0]] + old(self)@.replay.subrange(0, j as int));
        }
        assert(old(self)@.replay.subrange(0, old(self)@.replay.len() as int) =~= old(self)@.replay);
        self.replay = replay;
        assert(self.replay@ =~= seq![probe@[0]] + old(self)@.replay);
        false
    }

    /// Closes the body: every later read is refused and put-back bytes
    /// are dropped.
    pub fn close(&mut self)
        ensures
            final(self)@ == (InputModel { closed: true, replay: Seq::empty(), ..old(self)@ }),
    {
        proof {
            use_type_invariant(&*self);
        }
        self.closed = true;
        self.replay = Vec::new();
    }

    /// Puts bytes back in front of the body and moves the position back to
    /// `start`, so that the next read returns them again.
    fn put_back(&mut self, bytes: &Vec<u8>, start: u64)
        requires
            start + bytes@.len() + old(self)@.replay.len() <= old(self)@.consumed,
        ensures
            final(self)@ == (InputModel { replay: bytes@ + old(self)@.replay, logical_position: start, ..old(self)@ }),
    {
        let mut replay: Vec<u8> = Vec::new();
        let mut i: usize = 0;
        while i < bytes.len()
            invariant
                i <= bytes@.len(),
                replay@ == bytes@.subrange(0, i as int),
            decreases bytes.len() - i,
        {
            replay.push(bytes[i]);
            i = i + 1;
            assert(replay@ =~= bytes@.subrange(0, i as int));
        }
        let mut j: usize = 0;
        while j < self.replay.len()
            invariant
                j <= old(self)@.replay.len(),
                self@ == old(self)@,
                replay@ == bytes@ + old(self)@.replay.subrange(0, j as int),
            decreases self.replay.len() - j,
        {
            replay.push(self.replay[j]);
            j = j + 1;
            assert(replay@ =~= bytes@ + old(self)@.replay.subrange(0, j as int));
        }
        assert(old(self)@.replay.subrange(0, old(self)@.replay.len() as int) =~= old(self)@.replay);
        self.logical_position = start;
        self.replay = replay;
    }

    /// Starts reading the rest of the body, at most `limit` bytes.
    pub fn start_read_all(&self, limit: Option<usize>) -> (all: PendingReadAll)
        ensures
            all@ == (ReadAllModel { limit, start: self@.logical_position, output: Seq::empty() }),
    {
        let all = PendingReadAll { limit, start: self.logical_position, output: Vec::new() };
        assert(all@.output =~= Seq::<u8>::empty());
        all
    }
}

/// Reading the rest of a body, a read at a time.
pub struct PendingReadAll {
    limit: Option<usize>,
    start: u64,
    output: Vec<u8>,
}

/// Reading the rest of a body, as plain values.
#[verifier::ext_equal]
pub struct ReadAllModel {
    pub limit: Option<usize>,
    pub start: u64,
    pub output: Seq<u8>,
}

impl View for PendingReadAll {
    type V = ReadAllModel;

    closed spec fn view(&self) -> ReadAllModel {
        ReadAllModel { limit: self.limit, start: self.start, output: self.output@ }
    }
}

/// The length of the next read: a chunk, or with a limit one byte past
/// it less what was read; none when that is nothing.
pub open spec fn next_read_length(all: ReadAllModel) -> int {
    let wanted = match all.limit {
        Some(limit) => {
            let bound = limit.saturating_add(1);
            if bound > all.output.len() { bound - all.output.len() } else { 0 }
        },
        None => READ_CHUNK as int,
    };
    if wanted < READ_CHUNK { wanted } else { READ_CHUNK as int }
}

impl PendingReadAll {
    /// How many bytes to read next, or `None` when the read is over.
    pub fn next_length(&self) -> (length: Option<usize>)
        ensures
            next_read_length(self@) == 0 ==> length is None,
            next_read_length(self@) > 0 ==> length == Some(next_read_length(self@) as usize),
    {
        let wanted: usize = match self.limit {
            Some(limit) => {
                let bound = limit.saturating_add(1);
                if bound > self.output.len() { bound - self.output.len() } else { 0 }
            },
            None => READ_CHUNK,
        };
        let length = if wanted < READ_CHUNK { wanted } else { READ_CHUNK };
        if length == 0 {
            None
        } else {
            Some(length)
        }
    }

    /// What was read.
    pub fn into_bytes(self) -> (bytes: Vec<u8>)
        ensures
            bytes@ == self@.output,
    {
        self.output
    }

    /// Takes what one read returned. An empty read ends the read with all
    /// that was read; going past the limit puts everything back, moves the
    /// position back to where the read began and fails the read.
    pub fn absorb(&mut self, input: &mut RequestInput, chunk: Vec<u8>) -> (over: Option<Result<Vec<u8>, RuntimeErrorKind>>)
        requires
            old(self)@.output.len() + chunk@.len() <= usize::MAX,
            old(self)@.start + old(self)@.output.len() + chunk@.len() <= old(input)@.logical_position,
        ensures
            chunk@.len() == 0 ==> (over matches Some(Ok(v)) && v@ == old(self)@.output && final(input)@ == old(input)@),
            chunk@.len() > 0 ==> final(self)@.output == old(self)@.output + chunk@,
            final(self)@.limit == old(self)@.limit,
            final(self)@.start == old(self)@.start,
            chunk@.len() > 0 && (old(self)@.limit matches Some(l) && final(self)@.output.len() > l) ==> (over matches Some(
                Err(RuntimeErrorKind::Io(m)),
            ) && m@ == "stream read limit exceeded"@ && final(input)@ == (InputModel {
                replay: final(self)@.output + old(input)@.replay,
                logical_position: old(self)@.start,
                ..old(input)@
            })),
            chunk@.len() > 0 && !(old(self)@.limit matches Some(l) && final(self)@.output.len() > l) ==> over is None
                && final(input)@ == old(input)@,
    {
        if chunk.len() == 0 {
            let mut all: Vec<u8> = Vec::new();
            std::mem::swap(&mut all, &mut self.output);
            return Some(Ok(all));
        }
        let ghost before = self.output@;
        let mut i: usize = 0;
        while i < chunk.len()
            invariant
                i <= chunk@.len(),
                self.limit == old(self).limit,
                self.start == old(self).start,
                before.len() + chunk@.len() <= usize::MAX,
                self.output@ == before + chunk@.subrange(0, i as int),
            decreases chunk.len() - i,
        {
            self.output.push(chunk[i]);
            i = i + 1;
            assert(self.output@ =~= before + chunk@.subrange(0, i as int));
        }
        assert(chunk@.subrange(0, chunk@.len() as int) =~= chunk@);
        if let Some(limit) = self.limit {
            if self.output.len() > limit {
                proof {
                    use_type_invariant(&*input);
                }
                input.put_back(&self.output, self.start);
                return Some(Err(RuntimeErrorKind::Io("stream read limit exceeded".to_owned())));
            }
        }
        None
    }
}

/// A read returns no more than was asked and no more than a chunk.
pub proof fn lemma_reads_are_bounded(m: InputModel, length: int, elapsed_nanos: u128)
    requires
        0 <= length,
    ensures
        start(m, length, elapsed_nanos).1 matches ReadOutcome::Ready(out) ==> out.len() <= length && out.len() <= READ_CHUNK,
        start(m, length, elapsed_nanos).1 matches ReadOutcome::Fetch(p) ==> p.output.len() < p.length && p.length <= length && p.length <= READ_CHUNK,
{
}

/// Resuming keeps a read within its length.
pub proof fn lemma_resumed_reads_are_bounded(m: InputModel, p: PendingModel, got: Result<Seq<u8>, Seq<char>>, elapsed_nanos: u128)
    requires
        p.output.len() < p.length,
        0 < p.asked <= p.length - p.output.len(),
        got matches Ok(chunk) ==> chunk.len() <= p.asked,
    ensures
        resume(m, p, got, elapsed_nanos).1 matches ReadOutcome::Ready(out) ==> out.len() <= p.length,
        resume(m, p, got, elapsed_nanos).1 matches ReadOutcome::Fetch(q) ==> q.output.len() < q.length && q.length == p.length,
{
}

/// A step that does not fail never takes the body past its byte limit.
pub proof fn lemma_limit_holds(m: InputModel, p: PendingModel, got: Result<Seq<u8>, Seq<char>>, elapsed_nanos: u128)
    requires
        m.max_bytes matches Some(l) ==> m.consumed <= l,
    ensures
        !(resume(m, p, got, elapsed_nanos).1 is Failed) ==> (resume(m, p, got, elapsed_nanos).0.max_bytes matches Some(l)
            ==> resume(m, p, got, elapsed_nanos).0.consumed <= l),
{
}

/// A read that ends moves the position by exactly what it returns.
pub proof fn lemma_position_follows_reads(m: InputModel, length: int, elapsed_nanos: u128)
    requires
        0 <= length,
    ensures
        start(m, length, elapsed_nanos).1 matches ReadOutcome::Ready(out) ==> start(m, length, elapsed_nanos).0.logical_position
            == m.logical_position.saturating_add(out.len() as u64),
{
}

/// Bytes put back are what the next read returns first: a read of at
/// least as many bytes, on an open body within its time limit, takes
/// them before anything else.
pub proof fn lemma_put_back_is_read_again(m: InputModel, bytes: Seq<u8>, length: int, elapsed_nanos: u128)
    requires
        !m.closed,
        !expired(m, elapsed_nanos),
        bytes.len() <= length <= READ_CHUNK,
    ensures
        ({
            let back = InputModel { replay: bytes + m.replay, ..m };
            match start(back, length, elapsed_nanos).1 {
                ReadOutcome::Ready(out) => out.subrange(0, bytes.len() as int) == bytes,
                ReadOutcome::Fetch(p) => p.output.subrange(0, bytes.len() as int) == bytes,
                ReadOutcome::Failed(_) => false,
            }
        }),
{
    let back = InputModel { replay: bytes + m.replay, ..m };
    let k = if back.replay.len() < length { back.replay.len() as int } else { length };
    let taken = Seq::<u8>::empty() + back.replay.subrange(0, k);
    assert(taken.subrange(0, bytes.len() as int) =~= bytes);
}


/// Every byte the body has given is behind the position, waiting to be
/// read again, or held by a read in progress; so the position never runs
/// ahead of what was consumed.
pub open spec fn accounted(m: InputModel, held: int) -> bool {
    m.logical_position + m.replay.len() + held <= m.consumed
}

proof fn lemma_advance_accounted(m: InputModel, length: int, out: Seq<u8>)
    requires
        accounted(m, out.len() as int),
        out.len() <= length,
    ensures
        advance(m, length, out).1 matches ReadOutcome::Ready(_) ==> accounted(advance(m, length, out).0, 0),
        advance(m, length, out).1 matches ReadOutcome::Fetch(p) ==> accounted(advance(m, length, out).0, p.output.len() as int),
        !(advance(m, length, out).1 is Failed),
{
}

/// A read started on an input whose bytes are all accounted for keeps
/// them accounted for: when it ends, the position has moved by what it
/// returned and still does not pass the consumed bytes; while it waits,
/// what it holds is counted with them.
pub proof fn lemma_start_keeps_position_within_consumed(m: InputModel, length: int, elapsed_nanos: u128)
    requires
        accounted(m, 0),
        0 <= length,
    ensures
        start(m, length, elapsed_nanos).1 matches ReadOutcome::Fetch(p) ==> accounted(
            start(m, length, elapsed_nanos).0,
            p.output.len() as int,
        ),
        !(start(m, length, elapsed_nanos).1 is Fetch) ==> accounted(start(m, length, elapsed_nanos).0, 0),
        start(m, length, elapsed_nanos).0.logical_position <= start(m, length, elapsed_nanos).0.consumed,
{
    if !m.closed && !expired(m, elapsed_nanos) {
        let len = if length < READ_CHUNK { length } else { READ_CHUNK as int };
        lemma_advance_accounted(m, len, Seq::empty());
    }
}

/// Resuming a read whose held bytes are accounted for keeps every byte
/// accounted for, while the consumed count fits in 64 bits.
pub proof fn lemma_resume_keeps_position_within_consumed(
    m: InputModel,
    p: PendingModel,
    got: Result<Seq<u8>, Seq<char>>,
    elapsed_nanos: u128,
)
    requires
        accounted(m, p.output.len() as int),
        p.output.len() < p.length,
        0 < p.asked <= p.length - p.output.len(),
        got matches Ok(chunk) ==> chunk.len() <= p.asked && m.consumed + chunk.len() <= u64::MAX,
    ensures
        resume(m, p, got, elapsed_nanos).1 matches ReadOutcome::Fetch(q) ==> accounted(
            resume(m, p, got, elapsed_nanos).0,
            q.output.len() as int,
        ),
        !(resume(m, p, got, elapsed_nanos).1 is Fetch) ==> accounted(resume(m, p, got, elapsed_nanos).0, 0),
        resume(m, p, got, elapsed_nanos).0.logical_position <= resume(m, p, got, elapsed_nanos).0.consumed,
{
    if let Ok(chunk) = got {
        if !expired(m, elapsed_nanos) && chunk.len() > 0 {
            let grown = InputModel { consumed: m.consumed.saturating_add(chunk.len() as u64), ..m };
            assert(grown.consumed == m.consumed + chunk.len());
            if !(m.max_bytes matches Some(limit) && grown.consumed > limit) && chunk.len() >= p.asked {
                lemma_advance_accounted(grown, p.length, p.output + chunk);
            }
        }
    }
}

/// Putting back the byte that an end check read, and closing the body,
/// keep every byte accounted for.
pub proof fn lemma_settle_and_close_keep_position_within_consumed(m: InputModel, probe: u8)
    requires
        accounted(m, 0),
        m.logical_position >= 1,
    ensures
        accounted(InputModel { logical_position: m.logical_position.saturating_sub(1), replay: seq![probe] + m.replay, ..m }, 0),
        accounted(InputModel { closed: true, replay: Seq::empty(), ..m }, 0),
{
}

} // verus!
