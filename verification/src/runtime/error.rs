//! Structured runtime failures.

use vstd::prelude::*;
use crate::syntax::lexer::Span;

verus! {

/// Why a runtime operation failed.
#[derive(Clone, Debug, PartialEq, Eq)]
pub enum RuntimeErrorKind {
    Arithmetic(String),
    TypeError(String),
    Bounds(String),
    Io(String),
    HeapLimit { limit: usize },
    AllocationFailure,
    InputSizeLimit { limit: u64 },
    /// The request body took longer than its time limit, in nanoseconds.
    InputTimeLimit { limit_nanos: u128 },
    StackDepthLimit { limit: usize },
    OpenHandleLimit { limit: usize },
    OutputIo(String),
    CrossRequestValue,
    UninitializedLocal(u32),
    UninitializedProperty(u32),
    UncaughtException { class: String, message: String },
    Unreachable,
}

/// A type error carrying `message`.
pub open spec fn is_type_error(e: RuntimeErrorKind, message: Seq<char>) -> bool {
    e matches RuntimeErrorKind::TypeError(m) && m@ == message
}

/// A bounds error carrying `message`.
pub open spec fn is_bounds_error(e: RuntimeErrorKind, message: Seq<char>) -> bool {
    e matches RuntimeErrorKind::Bounds(m) && m@ == message
}

/// An I/O error carrying `message`.
pub open spec fn is_io_error(e: RuntimeErrorKind, message: Seq<char>) -> bool {
    e matches RuntimeErrorKind::Io(m) && m@ == message
}

/// The operation failed with a type error carrying `message`.
pub open spec fn type_failure<T>(r: Result<T, RuntimeErrorKind>, message: Seq<char>) -> bool {
    r matches Err(e) && is_type_error(e, message)
}

/// The operation failed with a bounds error carrying `message`.
pub open spec fn bounds_failure<T>(r: Result<T, RuntimeErrorKind>, message: Seq<char>) -> bool {
    r matches Err(e) && is_bounds_error(e, message)
}

/// The operation failed with an I/O error carrying `message`.
pub open spec fn io_failure<T>(r: Result<T, RuntimeErrorKind>, message: Seq<char>) -> bool {
    r matches Err(e) && is_io_error(e, message)
}

pub fn type_error(message: &str) -> (e: RuntimeErrorKind)
    ensures
        is_type_error(e, message@),
{
    RuntimeErrorKind::TypeError(message.to_owned())
}

pub fn bounds_error(message: &str) -> (e: RuntimeErrorKind)
    ensures
        is_bounds_error(e, message@),
{
    RuntimeErrorKind::Bounds(message.to_owned())
}

pub fn io_error(message: &str) -> (e: RuntimeErrorKind)
    ensures
        is_io_error(e, message@),
{
    RuntimeErrorKind::Io(message.to_owned())
}


/// A function on the call stack when a runtime error was raised, and the
/// source bytes it was running.
#[derive(Clone, Debug, PartialEq, Eq)]
pub struct StackFrame {
    pub function: String,
    pub span: Span,
}

/// A runtime failure with where it happened and the frames it unwound
/// through, innermost first.
#[derive(Clone, Debug, PartialEq, Eq)]
pub struct RuntimeError {
    pub kind: RuntimeErrorKind,
    pub span: Span,
    pub trace: Vec<StackFrame>,
}

impl RuntimeError {
    /// A failure with no frames yet.
    pub fn new(kind: RuntimeErrorKind, span: Span) -> (error: RuntimeError)
        ensures
            error.kind == kind,
            error.span == span,
            error.trace@.len() == 0,
    {
        RuntimeError { kind, span, trace: Vec::new() }
    }

    /// Records one more frame the failure unwound through.
    pub fn push_frame(&mut self, function: String, span: Span)
        ensures
            final(self).kind == old(self).kind,
            final(self).span == old(self).span,
            final(self).trace@ == old(self).trace@.push(StackFrame { function, span }),
    {
        self.trace.push(StackFrame { function, span });
    }
}

} // verus!
