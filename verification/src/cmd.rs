//! What a command is to a client, and the part of it that one exchange needs.
use vstd::prelude::*;

use crate::error::{Error, InternalError};

verus! {

/// The declaration of `embassy_time::Duration`, so that a command's timeout
/// can be held and handed on.
#[verifier::external_type_specification]
#[verifier::external_body]
pub struct ExDuration(embassy_time::Duration);

/// The duration that `embassy_time::Duration::from_millis` makes of a
/// number of milliseconds.
pub uninterp spec fn duration_from_millis(millis: u64) -> embassy_time::Duration;

/// Calls `embassy_time::Duration::from_millis`. The contract claims only
/// that the result is the same function of the milliseconds on every call;
/// how many ticks it holds depends on the tick rate the time driver was built
/// with, and is left unsaid. The milliseconds are kept within `u32` so that
/// their product with the ticks per millisecond of this build (1000) fits in
/// a `u64`.
#[verifier::external_body]
fn millis_to_duration(millis: u64) -> (d: embassy_time::Duration)
    requires
        millis <= u32::MAX,
    ensures
        d == duration_from_millis(millis),
{
    embassy_time::Duration::from_millis(millis)
}

/// An AT command: how it is written, what it expects back, and how its
/// response is parsed. The derive implements it for command structs.
pub trait AtatCmd {
    /// What a successful exchange yields.
    type Response;

    /// How long the client waits for the response, in milliseconds.
    const MAX_TIMEOUT_MS: u32 = 1000;
    /// Whether the command may be aborted.
    const CAN_ABORT: bool = false;
    /// Whether the device answers with a final result code.
    const EXPECTS_RESPONSE_CODE: bool = true;
    /// Whether the device answers with a prompt after which the payload is sent.
    const EXPECTS_PROMPT: bool = false;
    /// How many times `send_retry` sends the command at most.
    const ATTEMPTS: u8 = 1;
    /// Whether `send_retry` sends again after a parse error.
    const REATTEMPT_ON_PARSE_ERR: bool = true;

    /// Writes the command's bytes into `buf` and returns how many it wrote.
    fn write(&self, buf: &mut [u8]) -> usize;

    /// Turns what the device answered into the command's response.
    fn parse(&self, resp: Result<&[u8], InternalError>) -> Result<Self::Response, Error>;

    /// The bytes sent after the device's prompt; none unless the command has
    /// a data field.
    fn payload(&self) -> (p: &[u8])
        default_ensures
            p@ == Seq::<u8>::empty(),
    {
        &[]
    }
}

/// What one exchange needs to know of a command.
#[derive(Clone, Copy)]
pub struct AtatCmdSpec<'a> {
    pub timeout: embassy_time::Duration,
    pub expects_response_code: bool,
    pub expects_prompt: bool,
    pub payload: &'a [u8],
}

impl<'a> AtatCmdSpec<'a> {
    /// The exchange profile of a command with the given timeout in
    /// milliseconds, expectations and payload.
    pub fn new(
        max_timeout_ms: u32,
        expects_response_code: bool,
        expects_prompt: bool,
        payload: &'a [u8],
    ) -> (spec: Self)
        ensures
            spec.timeout == duration_from_millis(max_timeout_ms as u64),
            spec.expects_response_code == expects_response_code,
            spec.expects_prompt == expects_prompt,
            spec.payload == payload,
    {
        AtatCmdSpec {
            timeout: millis_to_duration(max_timeout_ms as u64),
            expects_response_code,
            expects_prompt,
            payload,
        }
    }

    /// The exchange profile of `cmd`: its constants, and the payload that
    /// `cmd.payload()` returns.
    pub fn from_cmd<Cmd: AtatCmd>(cmd: &'a Cmd) -> (spec: Self)
        ensures
            spec.timeout == duration_from_millis(Cmd::MAX_TIMEOUT_MS as u64),
            spec.expects_response_code == Cmd::EXPECTS_RESPONSE_CODE,
            spec.expects_prompt == Cmd::EXPECTS_PROMPT,
            call_ensures(Cmd::payload, (cmd,), spec.payload),
    {
        let payload = cmd.payload();
        Self::new(Cmd::MAX_TIMEOUT_MS, Cmd::EXPECTS_RESPONSE_CODE, Cmd::EXPECTS_PROMPT, payload)
    }
}

} // verus!
