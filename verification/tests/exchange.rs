use atat::cmd::{AtatCmd, AtatCmdSpec};
use atat::error::{Error, InternalError};
use atat::exchange::{begin, consume, digest, next_step, response_outcome, write_outcome, DigestResult,
    Digester, Exchange, Pause, SimpleResponse, Step};

fn finished<'a>(s: Step<'a>) -> Option<Result<&'a [u8], InternalError<'a>>> {
    match s {
        Step::Finish(r) => Some(r),
        _ => None,
    }
}

#[test]
fn digest_keeps_prompts_and_responses() {
    let (r, n) = digest(DigestResult::Prompt(b'>'), 3);
    assert!(matches!(r, Some(SimpleResponse::Prompt)));
    assert_eq!(n, 3);
    let (r, n) = digest(DigestResult::Response(Ok(b"Quectel")), 17);
    assert!(matches!(r, Some(SimpleResponse::Response(Ok(x))) if x == b"Quectel"));
    assert_eq!(n, 17);
    let (r, n) = digest(DigestResult::Urc(b"+UUSORD: 0,5"), 16);
    assert!(r.is_none());
    assert_eq!(n, 16);
    let (r, n) = digest(DigestResult::Nothing, 0);
    assert!(r.is_none());
    assert_eq!(n, 0);
}

#[test]
fn expected_prompt_sends_payload_once() {
    let s = next_step(Some(SimpleResponse::Prompt), 4, true, false);
    assert!(matches!(s, Step::SendPayload(4)));
    let s = next_step(Some(SimpleResponse::Prompt), 4, true, true);
    assert_eq!(finished(s), Some(Ok(&b""[..])));
}

#[test]
fn unexpected_prompt_finishes_empty() {
    let s = next_step(Some(SimpleResponse::Prompt), 4, false, false);
    assert_eq!(finished(s), Some(Ok(&b""[..])));
}

#[test]
fn response_finishes_exchange() {
    let s = next_step(Some(SimpleResponse::Response(Ok(b"OK"))), 6, true, false);
    assert_eq!(finished(s), Some(Ok(&b"OK"[..])));
    let s = next_step(Some(SimpleResponse::Response(Err(InternalError::Error))), 9, false, false);
    assert_eq!(finished(s), Some(Err(InternalError::Error)));
}

#[test]
fn nothing_swallowed_reads_more_otherwise_consumes() {
    assert!(matches!(next_step(None, 0, true, false), Step::ReadMore));
    assert!(matches!(next_step(None, 5, true, false), Step::Consume(5)));
}

#[test]
fn consume_moves_rest_to_front() {
    let mut buf = *b"AT+CGMI\r\nQuectel\r\nxyz";
    let held = consume(&mut buf, 18, 9);
    assert_eq!(held, 9);
    assert_eq!(&buf[..9], b"Quectel\r\n");
    assert_eq!(&buf[9..], b"Quectel\r\nxyz");
}

#[test]
fn consume_nothing_changes_nothing() {
    let mut buf = *b"abc";
    assert_eq!(consume(&mut buf, 2, 0), 2);
    assert_eq!(&buf, b"abc");
    assert_eq!(consume(&mut buf, 2, 2), 0);
    assert_eq!(&buf, b"abc");
}

/// A digester in the manner of a line-based one: `\r\n> ` is a prompt,
/// a line `OK` ends the response, a line `ERROR` is an error, a line
/// starting with `+` is a URC, an empty line is swallowed, anything
/// incomplete waits for more.
struct Lines;

impl Digester for Lines {
    fn digest<'a>(&mut self, buf: &'a [u8]) -> (DigestResult<'a>, usize) {
        if buf.starts_with(b"\r\n> ") {
            return (DigestResult::Prompt(b'>'), 4);
        }
        if buf.starts_with(b"\r\n") {
            return (DigestResult::Nothing, 2);
        }
        match buf.windows(2).position(|w| w == b"\r\n") {
            None => (DigestResult::Nothing, 0),
            Some(end) => {
                let line = &buf[..end];
                if line == b"OK" {
                    (DigestResult::Response(Ok(&buf[..0])), end + 2)
                } else if line == b"ERROR" {
                    (DigestResult::Response(Err(InternalError::Error)), end + 2)
                } else if line.starts_with(b"+") {
                    (DigestResult::Urc(line), end + 2)
                } else {
                    (DigestResult::Response(Ok(line)), end + 2)
                }
            }
        }
    }
}

/// A digester that claims more than it was given.
struct Greedy;

impl Digester for Greedy {
    fn digest<'a>(&mut self, buf: &'a [u8]) -> (DigestResult<'a>, usize) {
        (DigestResult::Nothing, buf.len() + 1)
    }
}

struct Echo;

impl AtatCmd for Echo {
    type Response = Vec<u8>;
    const EXPECTS_PROMPT: bool = true;
    fn write(&self, _buf: &mut [u8]) -> usize {
        0
    }
    fn parse(&self, resp: Result<&[u8], InternalError>) -> Result<Vec<u8>, Error> {
        resp.map(|b| b.to_vec()).map_err(Error::from)
    }
}

fn fill(buf: &mut [u8], ex: &mut Exchange, bytes: &[u8]) {
    let pos = ex.pos();
    buf[pos..pos + bytes.len()].copy_from_slice(bytes);
    assert_eq!(ex.received(buf.len(), Ok::<usize, ()>(bytes.len())), Ok(()));
}

#[test]
fn exchange_sends_payload_then_finishes() {
    let mut buf = [0u8; 32];
    let mut ex = Exchange::new(true);
    fill(&mut buf, &mut ex, b"\r\n+UUSORD\r\n\r\n> ");
    let p = ex.digest_all(&mut buf, &mut Lines, &Echo);
    assert!(matches!(p, Pause::SendPayload));
    assert!(ex.payload_sent());
    assert_eq!(ex.pos(), 0);
    let p = ex.digest_all(&mut buf, &mut Lines, &Echo);
    assert!(matches!(p, Pause::ReadMore));
    fill(&mut buf, &mut ex, b"\r\nSEND");
    let p = ex.digest_all(&mut buf, &mut Lines, &Echo);
    assert!(matches!(p, Pause::ReadMore));
    assert_eq!(ex.pos(), 4);
    assert_eq!(&buf[..4], b"SEND");
    fill(&mut buf, &mut ex, b" OK\r\n");
    match ex.digest_all(&mut buf, &mut Lines, &Echo) {
        Pause::Done(r) => assert_eq!(r, Ok(b"SEND OK".to_vec())),
        _ => panic!("the response should end the exchange"),
    }
}

#[test]
fn second_prompt_finishes_empty() {
    let mut buf = [0u8; 16];
    let mut ex = Exchange::new(true);
    fill(&mut buf, &mut ex, b"\r\n> \r\n> ");
    assert!(matches!(ex.digest_all(&mut buf, &mut Lines, &Echo), Pause::SendPayload));
    match ex.digest_all(&mut buf, &mut Lines, &Echo) {
        Pause::Done(r) => assert_eq!(r, Ok(vec![])),
        _ => panic!("a second prompt ends the exchange"),
    }
}

#[test]
fn error_response_goes_to_parser() {
    let mut buf = [0u8; 16];
    let mut ex = Exchange::new(false);
    fill(&mut buf, &mut ex, b"\r\nERROR\r\n");
    match ex.digest_all(&mut buf, &mut Lines, &Echo) {
        Pause::Done(r) => assert_eq!(r, Err(Error::Error)),
        _ => panic!("an error response ends the exchange"),
    }
}

#[test]
fn overrun_is_reported() {
    let mut buf = [0u8; 8];
    let mut ex = Exchange::new(false);
    fill(&mut buf, &mut ex, b"abc");
    assert!(matches!(ex.digest_all(&mut buf, &mut Greedy, &Echo), Pause::Overrun(4)));
    assert_eq!(ex.pos(), 3);
}

#[test]
fn exchange_consume_drops_front() {
    let mut buf = [0u8; 8];
    let mut ex = Exchange::new(false);
    fill(&mut buf, &mut ex, b"abcde");
    ex.consume(&mut buf, 2);
    assert_eq!(ex.pos(), 3);
    assert_eq!(&buf[..3], b"cde");
}

#[test]
fn failed_read_is_read_error() {
    let mut ex = Exchange::new(false);
    assert_eq!(ex.received(8, Err::<usize, &str>("broken")), Err(Error::Read));
    assert_eq!(ex.pos(), 0);
}

#[test]
fn write_outcomes() {
    assert_eq!(write_outcome::<()>(Err(embassy_time::TimeoutError)), Err(Error::Timeout));
    assert_eq!(write_outcome::<&str>(Ok(Err("io"))), Err(Error::Write));
    assert_eq!(write_outcome::<&str>(Ok(Ok(()))), Ok(()));
}

#[test]
fn response_outcomes() {
    assert_eq!(response_outcome::<u8>(Err(embassy_time::TimeoutError)), Err(Error::Timeout));
    assert_eq!(response_outcome::<u8>(Ok(Err(Error::Parse))), Err(Error::Parse));
    assert_eq!(response_outcome::<u8>(Ok(Ok(4))), Ok(4));
}

struct SendData<'a> {
    data: &'a [u8],
}

impl<'a> AtatCmd for SendData<'a> {
    type Response = ();
    const MAX_TIMEOUT_MS: u32 = 5000;
    const EXPECTS_PROMPT: bool = true;
    fn write(&self, _buf: &mut [u8]) -> usize {
        0
    }
    fn parse(&self, _resp: Result<&[u8], InternalError>) -> Result<(), Error> {
        Ok(())
    }
    fn payload(&self) -> &[u8] {
        self.data
    }
}

struct Reset;

impl AtatCmd for Reset {
    type Response = ();
    const EXPECTS_RESPONSE_CODE: bool = false;
    fn write(&self, _buf: &mut [u8]) -> usize {
        0
    }
    fn parse(&self, _resp: Result<&[u8], InternalError>) -> Result<(), Error> {
        Ok(())
    }
}

#[test]
fn spec_from_command() {
    let cmd = SendData { data: b"hello" };
    let spec = AtatCmdSpec::from_cmd(&cmd);
    assert_eq!(spec.timeout, embassy_time::Duration::from_millis(5000));
    assert_eq!(spec.timeout.as_millis(), 5000);
    assert_ne!(spec.timeout, embassy_time::Duration::from_ticks(5000));
    assert!(spec.expects_response_code);
    assert!(spec.expects_prompt);
    assert_eq!(spec.payload, b"hello");
    let ex = begin(&spec).expect("a response code is expected");
    assert_eq!(ex.pos(), 0);
    assert!(!ex.payload_sent());
}

#[test]
fn default_command_profile() {
    let spec = AtatCmdSpec::from_cmd(&Reset);
    assert_eq!(spec.timeout.as_millis(), 1000);
    assert!(!spec.expects_response_code);
    assert!(!spec.expects_prompt);
    assert!(spec.payload.is_empty());
    assert!(begin(&spec).is_none());
}

#[test]
fn spec_new_keeps_its_arguments() {
    let spec = AtatCmdSpec::new(250, true, false, b"xy");
    assert_eq!(spec.timeout, embassy_time::Duration::from_millis(250));
    assert_eq!(spec.timeout.as_ticks(), 250 * embassy_time::TICK_HZ / 1000);
    assert_eq!(spec.payload, b"xy");
}
