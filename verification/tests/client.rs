use atat::client::{should_retry, AtatClient, RetryLoop};
use atat::cmd::AtatCmd;
use atat::error::{Error, InternalError};

/// A client whose sends return scripted outcomes, one per call.
struct Scripted {
    outcomes: Vec<Result<u32, Error>>,
    sends: usize,
}

impl Scripted {
    fn new(outcomes: Vec<Result<u32, Error>>) -> Self {
        Scripted { outcomes, sends: 0 }
    }
}

impl AtatClient for Scripted {
    fn send<Cmd: AtatCmd>(&mut self, cmd: &Cmd) -> Result<Cmd::Response, Error> {
        let outcome = self.outcomes[self.sends];
        self.sends += 1;
        match outcome {
            Ok(v) => {
                let bytes = v.to_be_bytes();
                cmd.parse(Ok(&bytes))
            }
            Err(e) => Err(e),
        }
    }
}

struct ThreeTries;

impl AtatCmd for ThreeTries {
    type Response = u32;
    const ATTEMPTS: u8 = 3;
    fn write(&self, _buf: &mut [u8]) -> usize {
        0
    }
    fn parse(&self, resp: Result<&[u8], InternalError>) -> Result<u32, Error> {
        let b = resp.map_err(Error::from)?;
        Ok(u32::from_be_bytes([b[0], b[1], b[2], b[3]]))
    }
}

struct NoParseRetry;

impl AtatCmd for NoParseRetry {
    type Response = u32;
    const ATTEMPTS: u8 = 3;
    const REATTEMPT_ON_PARSE_ERR: bool = false;
    fn write(&self, _buf: &mut [u8]) -> usize {
        0
    }
    fn parse(&self, resp: Result<&[u8], InternalError>) -> Result<u32, Error> {
        let b = resp.map_err(Error::from)?;
        Ok(u32::from_be_bytes([b[0], b[1], b[2], b[3]]))
    }
}

struct NeverSent;

impl AtatCmd for NeverSent {
    type Response = u32;
    const ATTEMPTS: u8 = 0;
    fn write(&self, _buf: &mut [u8]) -> usize {
        0
    }
    fn parse(&self, _resp: Result<&[u8], InternalError>) -> Result<u32, Error> {
        Ok(0)
    }
}

#[test]
fn retry_stops_at_first_success() {
    let mut c = Scripted::new(vec![Err(Error::Timeout), Ok(7), Ok(8)]);
    assert_eq!(c.send_retry(&ThreeTries), Ok(7));
    assert_eq!(c.sends, 2);
}

#[test]
fn retry_gives_timeout_when_all_attempts_time_out() {
    let mut c = Scripted::new(vec![Err(Error::Timeout); 5]);
    assert_eq!(c.send_retry(&ThreeTries), Err(Error::Timeout));
    assert_eq!(c.sends, 3);
}

#[test]
fn retry_after_parse_errors_ends_in_timeout() {
    let mut c = Scripted::new(vec![Err(Error::Parse); 5]);
    assert_eq!(c.send_retry(&ThreeTries), Err(Error::Timeout));
    assert_eq!(c.sends, 3);
}

#[test]
fn parse_error_returned_at_once_without_reattempt() {
    let mut c = Scripted::new(vec![Err(Error::Parse), Ok(1)]);
    assert_eq!(c.send_retry(&NoParseRetry), Err(Error::Parse));
    assert_eq!(c.sends, 1);
}

#[test]
fn device_error_is_not_retried() {
    let mut c = Scripted::new(vec![Err(Error::CmeError(10)), Ok(1)]);
    assert_eq!(c.send_retry(&ThreeTries), Err(Error::CmeError(10)));
    assert_eq!(c.sends, 1);
}

#[test]
fn zero_attempts_send_nothing() {
    let mut c = Scripted::new(vec![]);
    assert_eq!(c.send_retry(&NeverSent), Err(Error::Timeout));
    assert_eq!(c.sends, 0);
}

#[test]
fn retry_through_mutable_reference() {
    let mut c = Scripted::new(vec![Err(Error::Timeout), Ok(9)]);
    let mut r = &mut c;
    assert_eq!(r.send_retry(&ThreeTries), Ok(9));
    assert_eq!(c.sends, 2);
}

#[test]
fn should_retry_table() {
    assert!(should_retry(&Err::<u8, Error>(Error::Timeout), false));
    assert!(should_retry(&Err::<u8, Error>(Error::Parse), true));
    assert!(!should_retry(&Err::<u8, Error>(Error::Parse), false));
    assert!(!should_retry(&Err::<u8, Error>(Error::Read), true));
    assert!(!should_retry(&Ok::<u8, Error>(3), true));
}

#[test]
fn retry_loop_runs_by_hand() {
    let mut run: RetryLoop<u8> = RetryLoop::new(2, true);
    assert!(run.may_send());
    assert_eq!(run.record(Err(Error::Timeout)), None);
    assert!(run.may_send());
    assert_eq!(run.record(Err(Error::Parse)), None);
    assert!(!run.may_send());
    assert_eq!(run.give_up(), Err(Error::Timeout));

    let mut run: RetryLoop<u8> = RetryLoop::new(2, true);
    assert_eq!(run.record(Ok(5)), Some(Ok(5)));
}

#[test]
fn internal_errors_become_public_errors() {
    assert_eq!(Error::from(InternalError::Custom(b"SEND FAIL")), Error::Custom);
    assert_eq!(Error::from(InternalError::CmsError(300)), Error::CmsError(300));
    assert_eq!(Error::from(InternalError::Timeout), Error::Timeout);
}
