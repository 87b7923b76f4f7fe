//! Messages of the Debug Adapter Protocol exchanged with the editor.
use vstd::prelude::*;

verus! {

/// A frame of the call stack shown to the user.
#[derive(Debug, Clone, PartialEq, Eq)]
pub struct StackFrame {
    pub id: u32,
    pub name: String,
    pub line: u32,
    pub column: u32,
}

/// A named value shown to the user, with its type when known.
#[derive(Debug, Clone, PartialEq, Eq)]
pub struct Variable {
    pub name: String,
    pub value: String,
    pub var_type: Option<String>,
}

impl Variable {
    /// The variable's name.
    pub fn name(&self) -> (r: &str)
        ensures
            r@ == self.name@,
    {
        self.name.as_str()
    }

    /// How the variable is rendered: its value.
    pub fn display(&self) -> (r: String)
        ensures
            r@ == self.value@,
    {
        self.value.clone()
    }
}

/// A message of the protocol: its sequence number and its body.
#[derive(Debug, Clone)]
pub struct ProtocolMessage {
    pub seq: i64,
    pub body: MessageBody,
}

/// What a message carries: a request, the response to one, or an event.
#[derive(Debug, Clone)]
pub enum MessageBody {
    Request { command: RequestCommand },
    Response {
        request_seq: i64,
        success: bool,
        command: String,
        message: Option<String>,
        body: Option<ResponseBody>,
    },
    Event { body: EventBody },
}

/// The requests the adapter understands, with their arguments.
#[derive(Debug, Clone)]
pub enum RequestCommand {
    Initialize,
    Launch,
    ConfigurationDone,
    SetBreakpoints(SetBreakpointsArguments),
    Threads,
    StackTrace(StackTraceArguments),
    Scopes(ScopesArguments),
    Variables(VariablesArguments),
    Continue(ContinueArguments),
    Disconnect,
}

/// A source file, by path.
#[derive(Debug, Clone)]
pub struct Source {
    pub name: Option<String>,
    pub path: Option<String>,
}

/// A breakpoint requested at a line (and column) of a source.
#[derive(Debug, Clone)]
pub struct SourceBreakpoint {
    pub line: i64,
    pub column: Option<i64>,
}

/// Arguments of `setBreakpoints`: all breakpoints of one source.
#[derive(Debug, Clone)]
pub struct SetBreakpointsArguments {
    pub source: Source,
    pub breakpoints: Option<Vec<SourceBreakpoint>>,
}

/// Arguments of `stackTrace`.
#[derive(Debug, Clone)]
pub struct StackTraceArguments {
    pub thread_id: i64,
    pub start_frame: Option<i64>,
    pub levels: Option<i64>,
}

/// Arguments of `scopes`.
#[derive(Debug, Clone)]
pub struct ScopesArguments {
    pub frame_id: i64,
}

/// Arguments of `variables`.
#[derive(Debug, Clone)]
pub struct VariablesArguments {
    pub variables_reference: i64,
}

/// Arguments of `continue`.
#[derive(Debug, Clone)]
pub struct ContinueArguments {
    pub thread_id: i64,
}

/// The body of a successful response.
#[derive(Debug, Clone)]
pub enum ResponseBody {
    StackTrace { stack_frames: Vec<StackFrame> },
    Variables { variables: Vec<Variable> },
}

/// The body of an event.
#[derive(Debug, Clone)]
pub enum EventBody {
    Initialized,
    Stopped { reason: String, thread_id: Option<i64> },
    Terminated,
}

} // verus!
