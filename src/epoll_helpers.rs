use vstd::prelude::*;

use crate::utility::create_error;

verus! {

/// How long a readiness wait may block.
#[derive(Clone, Copy, Debug, PartialEq, Eq, Structural)]
pub enum Timeout {
    Milliseconds(i32),
    Infinite,
}

impl Timeout {
    /// The millisecond argument of an epoll wait: `-1` waits forever, and a
    /// negative duration is refused.
    pub fn as_epoll_millis(self) -> (r: Result<i32, std::io::Error>)
        ensures
            match self {
                Timeout::Infinite => r matches Ok(ms) && ms == -1,
                Timeout::Milliseconds(x) => if x < 0 {
                    r is Err
                } else {
                    r matches Ok(ms) && ms == x
                },
            },
    {
        match self {
            Timeout::Infinite => Ok(-1),
            Timeout::Milliseconds(x) => {
                if x < 0 {
                    create_error("Negative wait specified in Epoller::wait!")
                } else {
                    Ok(x)
                }
            },
        }
    }
}

} // verus!
