//! A console-to-UART bridge driven by a completion-based reactor.
//!
//! The library holds the decisions: which operation to submit next, what a
//! completion means for each direction of the bridge, how logged bytes are
//! coalesced and flushed, and how a partially written stream is queued. The
//! kernel interface that performs the submitted operations lives with the
//! program that uses the library.
pub mod bufqueue;
pub mod epoll_helpers;
pub mod reactor;
pub mod transcript;
pub mod uart_tty_sm;
mod utility;

pub use bufqueue::{enqueued, BufQueue, QueueView, Sink, WriteError, MAX_BUF_SIZE};
pub use epoll_helpers::Timeout;
pub use reactor::{Completion, Op, Reactor, ReactorView, Request, RequestView, Submission};
pub use transcript::{
    flush_transcript, handle_buffer_ev, log_to_transcript, Transcript, TranscriptView,
    TRANSCRIPT_BUFFER_SIZE,
};
pub use uart_tty_sm::{
    BridgeError, BridgeView, DirView, Notice, State, Step, UartTtySM, CONTROL_O, DEFAULT_READ_SIZE,
};
pub use utility::create_error;
