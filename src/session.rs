use vstd::prelude::*;
use crate::command::{request_of, Command};
use crate::resp::{parse_frame, ParseError, Parsed, RespValue, MAX_DEPTH};

verus! {

/// What a connection does next with the bytes it has buffered.
#[derive(Debug, Clone, PartialEq)]
pub enum Step {
    /// A whole command was taken off the front of the buffer: run it and
    /// write its reply before looking at the buffer again.
    Run(Command),
    /// The buffer holds no whole command yet: read more bytes.
    NeedMore,
    /// The bytes cannot form a command: close the connection.
    Close,
}

/// Takes the next command off the front of `buffer`. Bytes that may still
/// become a command are kept for the next read.
pub fn next_command(buffer: &mut Vec<u8>) -> (r: Step)
    ensures
        match parse_frame(old(buffer)@, 0, MAX_DEPTH as nat) {
            Parsed::Complete(f, n) => {
                &&& r matches Step::Run(c)
                &&& c@ == request_of(f)
                &&& final(buffer)@ == old(buffer)@.subrange(n, old(buffer)@.len() as int)
            },
            Parsed::Incomplete => r is NeedMore && final(buffer)@ == old(buffer)@,
            Parsed::Invalid => r is Close,
        },
{
    match RespValue::parse(buffer.as_slice()) {
        Ok((frame, n)) => {
            let rest = buffer.split_off(n);
            *buffer = rest;
            Step::Run(Command::from_frame(&frame))
        },
        Err(ParseError::Incomplete) => Step::NeedMore,
        Err(ParseError::Invalid) => Step::Close,
    }
}

} // verus!
