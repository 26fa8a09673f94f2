//! The socket-wait structures of the Windows socket API, as the wait for a
//! socket fills them in.

use vstd::prelude::*;

verus! {

/// A timeout of `select`: seconds and microseconds.
#[allow(non_camel_case_types)]
#[derive(Debug, Clone, Copy)]
pub struct TIMEVAL {
    pub tv_sec: i32,
    pub tv_usec: i32,
}

/// A set of up to 64 sockets for `select`.
#[allow(non_camel_case_types)]
#[derive(Debug, Clone, Copy)]
pub struct FD_SET {
    pub fd_count: u32,
    pub fd_array: [usize; 64],
}

/// `x` as an `i32` keeps it: its low 32 bits in two's complement.
pub open spec fn wrap_i32(x: int) -> int {
    let m = x % 0x1_0000_0000;
    if m < 0x8000_0000 { m } else { m - 0x1_0000_0000 }
}

impl TIMEVAL {
    /// The timeout `secs` seconds plus `micros` microseconds, each cut to
    /// an `i32` as a cast does.
    pub fn from_timeout(secs: u64, micros: u32) -> (r: TIMEVAL)
        ensures
            r.tv_sec == wrap_i32(secs as int),
            r.tv_usec == wrap_i32(micros as int),
    {
        TIMEVAL { tv_sec: wrap(secs), tv_usec: wrap(micros as u64) }
    }
}

fn wrap(x: u64) -> (r: i32)
    ensures
        r == wrap_i32(x as int),
{
    let m = x % 0x1_0000_0000;
    if m < 0x8000_0000 {
        m as i32
    } else {
        (m as i64 - 0x1_0000_0000) as i32
    }
}

impl FD_SET {
    /// The set holding just `socket`.
    pub fn single(socket: usize) -> (r: FD_SET)
        ensures
            r.fd_count == 1,
            r.fd_array@[0] == socket,
            forall|i: int| 1 <= i < 64 ==> r.fd_array@[i] == 0,
    {
        let mut fds = FD_SET { fd_count: 1, fd_array: [0usize; 64] };
        fds.fd_array[0] = socket;
        fds
    }
}

} // verus!
