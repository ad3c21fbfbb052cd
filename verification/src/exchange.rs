//! One command exchange of the simple client: what the client does with
//! each digest of its receive buffer, how the buffer is kept, and how the
//! outcomes of writes and reads become errors.
use vstd::prelude::*;

use crate::cmd::{AtatCmd, AtatCmdSpec};
use crate::error::{Error, InternalError};

verus! {

/// The declaration of `embassy_time::TimeoutError`, what a write or a flush
/// that did not finish in time gives back.
#[verifier::external_type_specification]
#[verifier::external_body]
pub struct ExTimeoutError(embassy_time::TimeoutError);

/// What a digester finds at the front of the receive buffer.
pub enum DigestResult<'a> {
    /// An unsolicited result code.
    Urc(&'a [u8]),
    /// The final response to the command, or the error the device answered.
    Response(Result<&'a [u8], InternalError<'a>>),
    /// A prompt character.
    Prompt(u8),
    /// Nothing complete yet.
    Nothing,
}

/// What of a digest concerns the command in flight.
pub enum SimpleResponse<'a> {
    Prompt,
    Response(Result<&'a [u8], InternalError<'a>>),
}

/// What the client does next within one exchange.
pub enum Step<'a> {
    /// Drop the swallowed bytes, send the command's payload, and digest again.
    SendPayload(usize),
    /// The exchange is over: this goes to the command's parser.
    Finish(Result<&'a [u8], InternalError<'a>>),
    /// Nothing complete in the buffer: read more bytes.
    ReadMore,
    /// Drop this many leading bytes (an echo, whitespace, a URC) and digest again.
    Consume(usize),
}

/// Splits what the device sent into URCs, prompts and responses.
pub trait Digester {
    /// Looks at the front of `buf` and says what is there and how many of
    /// its bytes that took.
    fn digest<'a>(&mut self, buf: &'a [u8]) -> (DigestResult<'a>, usize);
}

/// Where the digest loop of an exchange stops.
pub enum Pause<R> {
    /// Nothing complete is left to digest: read more bytes.
    ReadMore,
    /// The expected prompt came and its bytes are dropped: send the payload,
    /// then go on digesting.
    SendPayload,
    /// The exchange is over; this is what the command's parser made of the
    /// final response.
    Done(Result<R, Error>),
    /// The digester claimed this many bytes, more than the buffer holds.
    Overrun(usize),
}

/// The part of a digest that concerns the command in flight: a prompt or a
/// response; a URC or nothing concerns it not.
pub open spec fn spec_digest<'a>(result: DigestResult<'a>) -> Option<SimpleResponse<'a>> {
    match result {
        DigestResult::Prompt(_) => Some(SimpleResponse::Prompt),
        DigestResult::Response(resp) => Some(SimpleResponse::Response(resp)),
        _ => None,
    }
}

/// Keeps of a digest what concerns the command in flight, with the number
/// of bytes the digester swallowed.
pub fn digest<'a>(result: DigestResult<'a>, swallowed: usize) -> (r: (
    Option<SimpleResponse<'a>>,
    usize,
))
    ensures
        r.0 == spec_digest(result),
        r.1 == swallowed,
        result matches DigestResult::Response(resp) ==> r.0 == Some(SimpleResponse::Response(resp)),
        result is Prompt ==> r.0 == Some(SimpleResponse::<'a>::Prompt),
        (result is Urc || result is Nothing) ==> r.0 is None,
{
    let response = match result {
        DigestResult::Prompt(_) => Some(SimpleResponse::Prompt),
        DigestResult::Response(resp) => Some(SimpleResponse::Response(resp)),
        _ => None,
    };
    (response, swallowed)
}

/// The client's decision after one digest: on an expected prompt before the
/// payload went out, send it; on another prompt, finish with an empty
/// response; on a response, finish with it; with nothing swallowed, read
/// more; otherwise drop what was swallowed.
pub open spec fn spec_next_step<'a>(
    response: Option<SimpleResponse<'a>>,
    swallowed: usize,
    expects_prompt: bool,
    payload_sent: bool,
) -> Step<'a> {
    match response {
        Some(SimpleResponse::Prompt) => if expects_prompt && !payload_sent {
            Step::SendPayload(swallowed)
        } else {
            Step::Finish(Ok(&[]))
        },
        Some(SimpleResponse::Response(resp)) => Step::Finish(resp),
        None => if swallowed == 0 {
            Step::ReadMore
        } else {
            Step::Consume(swallowed)
        },
    }
}

/// Decides what the client does after a digest.
pub fn next_step<'a>(
    response: Option<SimpleResponse<'a>>,
    swallowed: usize,
    expects_prompt: bool,
    payload_sent: bool,
) -> (step: Step<'a>)
    ensures
        step == spec_next_step(response, swallowed, expects_prompt, payload_sent),
        response matches Some(SimpleResponse::Response(resp)) ==> step == Step::Finish(resp),
        response matches Some(SimpleResponse::Prompt) ==> step == (if expects_prompt && !payload_sent {
            Step::<'a>::SendPayload(swallowed)
        } else {
            Step::<'a>::Finish(Ok(&[]))
        }),
        response is None ==> step == (if swallowed == 0 {
            Step::<'a>::ReadMore
        } else {
            Step::<'a>::Consume(swallowed)
        }),
{
    match response {
        Some(SimpleResponse::Prompt) => if expects_prompt && !payload_sent {
            Step::SendPayload(swallowed)
        } else {
            Step::Finish(Ok(&[]))
        },
        Some(SimpleResponse::Response(resp)) => Step::Finish(resp),
        None => if swallowed == 0 {
            Step::ReadMore
        } else {
            Step::Consume(swallowed)
        },
    }
}

/// The state of one exchange: how many bytes the receive buffer holds,
/// whether the command's payload has gone out, and whether the command
/// expects a prompt at all.
pub struct Exchange {
    pos: usize,
    payload_sent: bool,
    expects_prompt: bool,
}

impl Exchange {
    /// How many bytes at the front of the receive buffer are still to be digested.
    pub closed spec fn held(&self) -> nat {
        self.pos as nat
    }

    /// Whether the payload has gone out in this exchange.
    pub closed spec fn sent(&self) -> bool {
        self.payload_sent
    }

    /// Whether the command expects a prompt.
    pub closed spec fn prompt_expected(&self) -> bool {
        self.expects_prompt
    }

    /// An exchange that has received nothing and sent no payload yet.
    pub fn new(expects_prompt: bool) -> (ex: Self)
        ensures
            ex.held() == 0,
            !ex.sent(),
            ex.prompt_expected() == expects_prompt,
    {
        Exchange { pos: 0, payload_sent: false, expects_prompt }
    }

    /// How many bytes at the front of the receive buffer are still to be digested.
    pub fn pos(&self) -> (n: usize)
        ensures
            n == self.held(),
    {
        self.pos
    }

    /// Whether the payload has gone out in this exchange.
    pub fn payload_sent(&self) -> (b: bool)
        ensures
            b == self.sent(),
    {
        self.payload_sent
    }

    /// Takes in the outcome of a read into the free part of a receive buffer
    /// of `capacity` bytes: the bytes read now follow those held; a failed
    /// read ends the exchange with a read error.
    pub fn received<E>(&mut self, capacity: usize, read: Result<usize, E>) -> (r: Result<(), Error>)
        requires
            old(self).held() <= capacity,
            read matches Ok(n) ==> n <= capacity - old(self).held(),
        ensures
            final(self).sent() == old(self).sent(),
            final(self).prompt_expected() == old(self).prompt_expected(),
            final(self).held() <= capacity,
            match read {
                Ok(n) => r is Ok && final(self).held() == old(self).held() + n,
                Err(_) => r == Err::<(), Error>(Error::Read) && final(self).held() == old(self).held(),
            },
    {
        match read {
            Ok(n) => {
                self.pos = self.pos + n;
                Ok(())
            },
            Err(_) => Err(Error::Read),
        }
    }

    /// Drops the first `amt` held bytes: the bytes after them move to the
    /// front of `buf`, and the bytes past the held ones stay as they were.
    pub fn consume(&mut self, buf: &mut [u8], amt: usize)
        requires
            amt <= old(self).held() <= old(buf)@.len(),
        ensures
            final(self).held() == old(self).held() - amt,
            final(self).sent() == old(self).sent(),
            final(self).prompt_expected() == old(self).prompt_expected(),
            final(buf)@ == shifted(old(buf)@, old(self).held(), amt as nat),
    {
        self.pos = consume(buf, self.pos, amt);
    }
}

/// What the client decides on the digester's answer `out`.
pub open spec fn step_of<'a>(out: (DigestResult<'a>, usize), expects_prompt: bool, payload_sent: bool) -> Step<'a> {
    spec_next_step(spec_digest(out.0), out.1, expects_prompt, payload_sent)
}

/// How many bytes the first `i` answers of `outs` swallowed in all.
pub open spec fn swallowed_before<'a>(outs: Seq<(DigestResult<'a>, usize)>, i: int) -> nat
    decreases i,
{
    if i <= 0 || outs.len() == 0 {
        0
    } else {
        swallowed_before(outs, i - 1) + outs[i - 1].1 as nat
    }
}

/// Appending an answer leaves the sums over the earlier answers as they
/// were.
proof fn lemma_swallowed_prefix<'a>(outs: Seq<(DigestResult<'a>, usize)>, out: (DigestResult<'a>, usize), i: int)
    requires
        0 <= i <= outs.len(),
    ensures
        swallowed_before(outs.push(out), i) == swallowed_before(outs, i),
    decreases i,
{
    if i > 0 {
        lemma_swallowed_prefix(outs, out, i - 1);
        assert(outs.push(out)[i - 1] == outs[i - 1]);
    }
}

/// Appending an answer leaves the sums over the earlier answers as they
/// were, and adds its count to the whole.
proof fn lemma_swallowed_push<'a>(outs: Seq<(DigestResult<'a>, usize)>, out: (DigestResult<'a>, usize), i: int)
    requires
        0 <= i <= outs.len(),
    ensures
        swallowed_before(outs.push(out), i) == swallowed_before(outs, i),
        swallowed_before(outs.push(out), outs.len() as int + 1) == swallowed_before(outs, outs.len() as int)
            + out.1,
{
    lemma_swallowed_prefix(outs, out, i);
    lemma_swallowed_prefix(outs, out, outs.len() as int);
    assert(outs.push(out)[outs.len() as int] == out);
}

/// The record of the digester calls of a digest loop over `window`: the
/// references the calls took, the buffers they were given, their answers,
/// and the digester states between them. Each call started where the one
/// before left the digester and was given the bytes of `window` that the
/// earlier answers had not swallowed.
pub open spec fn digest_record<'a, D: Digester>(
    window: Seq<u8>,
    calls: Seq<&mut D>,
    args: Seq<&'a [u8]>,
    outs: Seq<(DigestResult<'a>, usize)>,
    states: Seq<D>,
) -> bool {
    &&& calls.len() == outs.len()
    &&& args.len() == outs.len()
    &&& states.len() == outs.len() + 1
    &&& forall|i: int| 0 <= i < outs.len() ==> (#[trigger] args[i])@ == window.skip(
        swallowed_before(outs, i) as int,
    )
}

/// One more call of the digester, from where the calls so far left it and
/// on what is left of the window after the bytes they swallowed, extends
/// their record; the earlier answers keep what the client decided on them.
proof fn lemma_digests_push<'a, D: Digester>(
    window: Seq<u8>,
    w: (Seq<&mut D>, Seq<&'a [u8]>, Seq<(DigestResult<'a>, usize)>, Seq<D>),
    m: &mut D,
    arg: &'a [u8],
    out: (DigestResult<'a>, usize),
    post: D,
    expects_prompt: bool,
    payload_sent: bool,
)
    requires
        digest_record::<D>(window, w.0, w.1, w.2, w.3),
        forall|i: int| 0 <= i < w.0.len() ==> #[trigger] call_ensures(D::digest, (w.0[i], w.1[i]), w.2[i])
            && *w.0[i] == w.3[i] && mut_ref_future(w.0[i]) == w.3[i + 1],
        forall|i: int| 0 <= i < w.2.len() ==> step_of(#[trigger] w.2[i], expects_prompt, payload_sent)
            == Step::<'a>::Consume(w.2[i].1),
        call_ensures(D::digest, (m, arg), out),
        *m == w.3.last(),
        mut_ref_future(m) == post,
        arg@ == window.skip(swallowed_before(w.2, w.2.len() as int) as int),
    ensures
        w.0.push(m).len() == w.2.len() + 1,
        w.1.push(arg).len() == w.2.len() + 1,
        w.2.push(out).len() == w.2.len() + 1,
        w.3.push(post).len() == w.2.len() + 2,
        w.3.push(post)[0] == w.3[0],
        w.3.push(post).last() == post,
        w.2.push(out).last() == out,
        digest_record::<D>(window, w.0.push(m), w.1.push(arg), w.2.push(out), w.3.push(post)),
        swallowed_before(w.2.push(out), w.2.len() as int) == swallowed_before(w.2, w.2.len() as int),
        swallowed_before(w.2.push(out), w.2.len() as int + 1) == swallowed_before(w.2, w.2.len() as int)
            + out.1,
        forall|i: int| 0 <= i < w.0.push(m).len() ==> #[trigger] call_ensures(
            D::digest,
            (w.0.push(m)[i], w.1.push(arg)[i]),
            w.2.push(out)[i],
        ) && *w.0.push(m)[i] == w.3.push(post)[i] && mut_ref_future(w.0.push(m)[i]) == w.3.push(post)[i + 1],
        forall|i: int| 0 <= i < w.2.len() ==> step_of(#[trigger] w.2.push(out)[i], expects_prompt, payload_sent)
            == Step::<'a>::Consume(w.2.push(out)[i].1),
{
    let (calls, args, outs, states) = w;
    let n = outs.len() as int;
    lemma_swallowed_push(outs, out, n);
    assert forall|i: int| 0 <= i < calls.push(m).len() implies #[trigger] call_ensures(
        D::digest,
        (calls.push(m)[i], args.push(arg)[i]),
        outs.push(out)[i],
    ) && *calls.push(m)[i] == states.push(post)[i] && mut_ref_future(calls.push(m)[i]) == states.push(
        post,
    )[i + 1] by {
        if i < n {
            assert(calls.push(m)[i] == calls[i]);
            assert(args.push(arg)[i] == args[i]);
            assert(outs.push(out)[i] == outs[i]);
            assert(states.push(post)[i] == states[i]);
            assert(states.push(post)[i + 1] == states[i + 1]);
        } else {
            assert(calls.push(m)[i] == m);
            assert(args.push(arg)[i] == arg);
            assert(outs.push(out)[i] == out);
            assert(states.push(post)[i] == states.last());
            assert(states.push(post)[i + 1] == post);
        }
    }
    assert forall|i: int| 0 <= i < n + 1 implies (#[trigger] args.push(arg)[i])@ == window.skip(
        swallowed_before(outs.push(out), i) as int,
    ) by {
        lemma_swallowed_push(outs, out, i);
        if i < n {
            assert(args.push(arg)[i] == args[i]);
        } else {
            assert(args.push(arg)[i] == arg);
        }
    }
    assert forall|i: int| 0 <= i < n implies step_of(#[trigger] outs.push(out)[i], expects_prompt, payload_sent)
        == Step::<'a>::Consume(outs.push(out)[i].1) by {
        assert(outs.push(out)[i] == outs[i]);
    }
}

impl Exchange {
    /// Digests the held bytes of `buf` until the exchange is over, the
    /// payload is due, or more bytes are needed: every digest that concerns
    /// neither the prompt nor the response drops the bytes it swallowed.
    /// Whatever the digester answers, the loop ends, only drops bytes from
    /// the front of the held ones, and leaves the bytes past them alone.
    /// The digester is called once per step, each call starting where the one
    /// before left it and given exactly the held bytes that earlier answers
    /// did not swallow; every answer but the last was dropped by exactly the
    /// count it swallowed. Unless the buffer ran empty, the pause is what
    /// `next_step` decides for the last answer; a finished exchange yields
    /// what the command's parser made of that answer's response.
    pub fn digest_all<D: Digester, Cmd: AtatCmd>(
        &mut self,
        buf: &mut [u8],
        digester: &mut D,
        cmd: &Cmd,
    ) -> (p: Pause<Cmd::Response>)
        requires
            old(self).held() <= old(buf)@.len(),
        ensures
            final(self).prompt_expected() == old(self).prompt_expected(),
            final(self).held() <= old(self).held(),
            final(buf)@.len() == old(buf)@.len(),
            final(buf)@.subrange(0, final(self).held() as int) == old(buf)@.subrange(
                old(self).held() - final(self).held(),
                old(self).held() as int,
            ),
            final(buf)@.subrange(old(self).held() as int, old(buf)@.len() as int) == old(
                buf,
            )@.subrange(old(self).held() as int, old(buf)@.len() as int),
            p is SendPayload <==> (final(self).sent() && !old(self).sent()),
            p is SendPayload ==> final(self).prompt_expected(),
            !(p is SendPayload) ==> final(self).sent() == old(self).sent(),
            p matches Pause::Overrun(n) ==> n > final(self).held(),
            exists|calls: Seq<&mut D>, args: Seq<&[u8]>, outs: Seq<(DigestResult, usize)>, dstates: Seq<D>|
                #![trigger digest_record::<D>(old(buf)@.subrange(0, old(self).held() as int), calls, args, outs, dstates)]
            {
                &&& digest_record::<D>(old(buf)@.subrange(0, old(self).held() as int), calls, args, outs, dstates)
                &&& dstates[0] == *old(digester)
                &&& dstates.last() == *final(digester)
                &&& forall|i: int| 0 <= i < calls.len() ==> #[trigger] call_ensures(
                    D::digest,
                    (calls[i], args[i]),
                    outs[i],
                ) && *calls[i] == dstates[i] && mut_ref_future(calls[i]) == dstates[i + 1]
                &&& forall|i: int| 0 <= i < outs.len() - 1 ==> step_of(
                    #[trigger] outs[i],
                    old(self).prompt_expected(),
                    old(self).sent(),
                ) == Step::Consume(outs[i].1)
                &&& (outs.len() == 0 <==> old(self).held() == 0)
                &&& (p is ReadMore && final(self).held() == 0) ==> {
                    &&& outs.len() == 0 || step_of(outs.last(), old(self).prompt_expected(), old(self).sent())
                        == Step::Consume(outs.last().1)
                    &&& swallowed_before(outs, outs.len() as int) == old(self).held()
                }
                &&& !(p is ReadMore && final(self).held() == 0) ==> {
                    let last = step_of(outs.last(), old(self).prompt_expected(), old(self).sent());
                    &&& outs.len() > 0
                    &&& match p {
                        Pause::ReadMore => last is ReadMore
                            && swallowed_before(outs, outs.len() - 1) == old(self).held() - final(self).held(),
                        Pause::SendPayload => last == Step::SendPayload(outs.last().1)
                            && swallowed_before(outs, outs.len() as int) == old(self).held() - final(self).held(),
                        Pause::Done(r) => (exists|resp: Result<&[u8], InternalError>|
                            last == Step::Finish(resp) && call_ensures(Cmd::parse, (cmd, resp), r))
                            && swallowed_before(outs, outs.len() - 1) == old(self).held() - final(self).held(),
                        Pause::Overrun(n) => outs.last().1 == n
                            && (last == Step::Consume(n) || last == Step::SendPayload(n))
                            && swallowed_before(outs, outs.len() - 1) == old(self).held() - final(self).held(),
                    }
                }
            },
    {
        let ghost start = buf@;
        let ghost start_held = self.pos as int;
        assert(digest_record::<D>(
            start.subrange(0, start_held),
            Seq::<&mut D>::empty(),
            Seq::<&[u8]>::empty(),
            Seq::<(DigestResult, usize)>::empty(),
            seq![*digester],
        ));
        while self.pos > 0
            invariant
                self.pos <= start_held <= start.len(),
                buf@.len() == start.len(),
                self.expects_prompt == old(self).prompt_expected(),
                self.payload_sent == old(self).sent(),
                start_held == old(self).held(),
                start == old(buf)@,
                buf@.subrange(0, self.pos as int) == start.subrange(start_held - self.pos, start_held),
                buf@.subrange(start_held, start.len() as int) == start.subrange(
                    start_held,
                    start.len() as int,
                ),
                exists|calls: Seq<&mut D>, args: Seq<&[u8]>, outs: Seq<(DigestResult, usize)>, dstates: Seq<D>|
                    #![trigger digest_record::<D>(start.subrange(0, start_held), calls, args, outs, dstates)]
                    digest_record::<D>(start.subrange(0, start_held), calls, args, outs, dstates)
                    && dstates[0] == *old(digester) && dstates.last() == *digester
                    && (forall|i: int| 0 <= i < calls.len() ==> #[trigger] call_ensures(
                        D::digest,
                        (calls[i], args[i]),
                        outs[i],
                    ) && *calls[i] == dstates[i] && mut_ref_future(calls[i]) == dstates[i + 1])
                    && (forall|i: int| 0 <= i < outs.len() ==> step_of(
                        #[trigger] outs[i],
                        old(self).prompt_expected(),
                        old(self).sent(),
                    ) == Step::Consume(outs[i].1))
                    && swallowed_before(outs, outs.len() as int) == start_held - self.pos,
            decreases self.pos,
        {
            let ghost pre_d = *digester;
            let ghost pos0 = self.pos as int;
            assert(exists|calls: Seq<&mut D>, args: Seq<&[u8]>, outs: Seq<(DigestResult, usize)>, dstates: Seq<D>|
                #![trigger digest_record::<D>(start.subrange(0, start_held), calls, args, outs, dstates)]
                digest_record::<D>(start.subrange(0, start_held), calls, args, outs, dstates)
                    && dstates[0] == *old(digester) && dstates.last() == pre_d
                    && (forall|i: int| 0 <= i < calls.len() ==> #[trigger] call_ensures(
                        D::digest,
                        (calls[i], args[i]),
                        outs[i],
                    ) && *calls[i] == dstates[i] && mut_ref_future(calls[i]) == dstates[i + 1])
                    && (forall|i: int| 0 <= i < outs.len() ==> step_of(
                        #[trigger] outs[i],
                        old(self).prompt_expected(),
                        old(self).sent(),
                    ) == Step::Consume(outs[i].1))
                    && swallowed_before(outs, outs.len() as int) == start_held - pos0);
            let held = vstd::slice::slice_subrange(buf, 0, self.pos);
            let out = digester.digest(held);
            let ghost said = out;
            assert(exists|m: &mut D| call_ensures(D::digest, (m, held), said) && *m == pre_d && mut_ref_future(m) == *digester);
            proof {
                assert(held@ == start.subrange(0, start_held).skip(start_held - pos0));
                lemma_digests_push::<D>(
                    start.subrange(0, start_held),
                    choose|calls: Seq<&mut D>, args: Seq<&[u8]>, outs: Seq<(DigestResult, usize)>, dstates: Seq<D>|
                        #![trigger digest_record::<D>(start.subrange(0, start_held), calls, args, outs, dstates)]
                        digest_record::<D>(start.subrange(0, start_held), calls, args, outs, dstates)
                    && dstates[0] == *old(digester) && dstates.last() == pre_d
                    && (forall|i: int| 0 <= i < calls.len() ==> #[trigger] call_ensures(
                        D::digest,
                        (calls[i], args[i]),
                        outs[i],
                    ) && *calls[i] == dstates[i] && mut_ref_future(calls[i]) == dstates[i + 1])
                    && (forall|i: int| 0 <= i < outs.len() ==> step_of(
                        #[trigger] outs[i],
                        old(self).prompt_expected(),
                        old(self).sent(),
                    ) == Step::Consume(outs[i].1))
                    && swallowed_before(outs, outs.len() as int) == start_held - pos0,
                    choose|m: &mut D| call_ensures(D::digest, (m, held), said) && *m == pre_d && mut_ref_future(m) == *digester,
                    held,
                    said,
                    *digester,
                    old(self).prompt_expected(),
                    old(self).sent(),
                );
            }
            let (result, swallowed) = out;
            let (response, swallowed) = digest(result, swallowed);
            match next_step(response, swallowed, self.expects_prompt, self.payload_sent) {
                Step::SendPayload(n) => {
                    if n > self.pos {
                        return Pause::Overrun(n);
                    }
                    self.payload_sent = true;
                    let ghost before = buf@;
                    let ghost pos = self.pos as int;
                    self.consume(buf, n);
                    proof {
                        lemma_shift_window(before, start, pos, n as int, start_held);
                    }
                    return Pause::SendPayload;
                },
                Step::Finish(resp) => {
                    return Pause::Done(cmd.parse(resp));
                },
                Step::ReadMore => {
                    return Pause::ReadMore;
                },
                Step::Consume(n) => {
                    if n > self.pos {
                        return Pause::Overrun(n);
                    }
                    let ghost before = buf@;
                    let ghost pos = self.pos as int;
                    self.consume(buf, n);
                    proof {
                        lemma_shift_window(before, start, pos, n as int, start_held);
                    }
                },
            }
        }
        Pause::ReadMore
    }
}

/// Dropping `amt` bytes from the front of a held window that is a suffix of
/// the first `start_held` bytes of `start` leaves a shorter such suffix, and
/// the bytes past `start_held` as they were.
proof fn lemma_shift_window(before: Seq<u8>, start: Seq<u8>, pos: int, amt: int, start_held: int)
    requires
        0 <= amt <= pos <= start_held <= start.len(),
        before.len() == start.len(),
        before.subrange(0, pos) == start.subrange(start_held - pos, start_held),
        before.subrange(start_held, start.len() as int) == start.subrange(start_held, start.len() as int),
    ensures
        ({
            let after = shifted(before, pos as nat, amt as nat);
            &&& after.len() == start.len()
            &&& after.subrange(0, pos - amt) == start.subrange(start_held - (pos - amt), start_held)
            &&& after.subrange(start_held, start.len() as int) == start.subrange(
                start_held,
                start.len() as int,
            )
        }),
{
    let after = shifted(before, pos as nat, amt as nat);
    assert forall|i: int| 0 <= i < pos - amt implies #[trigger] after.subrange(0, pos - amt)[i]
        == start.subrange(start_held - (pos - amt), start_held)[i] by {
        assert(after.subrange(0, pos - amt)[i] == after[i]);
        assert(after[i] == before.subrange(amt, pos)[i]);
        assert(before.subrange(amt, pos)[i] == before[i + amt]);
        assert(before[i + amt] == before.subrange(0, pos)[i + amt]);
        assert(start.subrange(start_held - pos, start_held)[i + amt] == start[start_held - pos + i + amt]);
        assert(start.subrange(start_held - (pos - amt), start_held)[i] == start[start_held - pos + amt + i]);
    }
    assert(after.subrange(0, pos - amt) =~= start.subrange(start_held - (pos - amt), start_held));
    assert forall|i: int| 0 <= i < start.len() - start_held implies #[trigger] after.subrange(
        start_held,
        start.len() as int,
    )[i] == start.subrange(start_held, start.len() as int)[i] by {
        assert(after[start_held + i] == before[start_held + i]);
        assert(before.subrange(start_held, start.len() as int)[i] == before[start_held + i]);
    }
    assert(after.subrange(start_held, start.len() as int) =~= start.subrange(start_held, start.len() as int));
}

/// The buffer `b`, holding `pos` bytes to digest, after its first `amt` of
/// them were dropped: the remaining held bytes at the front, and every byte
/// past them as before.
pub open spec fn shifted(b: Seq<u8>, pos: nat, amt: nat) -> Seq<u8> {
    b.subrange(amt as int, pos as int) + b.subrange(pos - amt, b.len() as int)
}

/// Moves the bytes `amt..pos` of `buf` to its front and returns how many
/// bytes are held after that.
pub fn consume(buf: &mut [u8], pos: usize, amt: usize) -> (held: usize)
    requires
        amt <= pos <= old(buf)@.len(),
    ensures
        held == pos - amt,
        final(buf)@ == shifted(old(buf)@, pos as nat, amt as nat),
        final(buf)@.subrange(0, held as int) == old(buf)@.subrange(amt as int, pos as int),
{
    let ghost before = buf@;
    let n = pos - amt;
    let mut i: usize = 0;
    while i < n
        invariant
            n == pos - amt,
            amt <= pos <= before.len(),
            i <= n,
            buf@.len() == before.len(),
            forall|j: int| 0 <= j < i ==> buf@[j] == before[j + amt],
            forall|j: int| i <= j < before.len() ==> buf@[j] == before[j],
        decreases n - i,
    {
        let b = buf[i + amt];
        buf[i] = b;
        i = i + 1;
    }
    assert(buf@ =~= shifted(before, pos as nat, amt as nat));
    n
}

/// What a write or a flush that ran under a timeout comes to: a timeout, a
/// write error when the link failed, success otherwise.
pub open spec fn spec_write_outcome<E>(r: Result<Result<(), E>, embassy_time::TimeoutError>) -> Result<(), Error> {
    match r {
        Err(_) => Err(Error::Timeout),
        Ok(Err(_)) => Err(Error::Write),
        Ok(Ok(())) => Ok(()),
    }
}

/// Turns the outcome of a write or a flush under a timeout into the
/// exchange's error.
pub fn write_outcome<E>(r: Result<Result<(), E>, embassy_time::TimeoutError>) -> (out: Result<(), Error>)
    ensures
        out == spec_write_outcome(r),
        r is Err ==> out == Err::<(), Error>(Error::Timeout),
        r matches Ok(Err(_)) ==> out == Err::<(), Error>(Error::Write),
        r matches Ok(Ok(_)) ==> out == Ok::<(), Error>(()),
{
    match r {
        Err(_) => Err(Error::Timeout),
        Ok(Err(_)) => Err(Error::Write),
        Ok(Ok(())) => Ok(()),
    }
}

/// Once the request is out: a command that expects no response code is
/// finished at once with an empty response (`None`); otherwise an exchange
/// starts with an empty buffer and no payload sent.
pub fn begin(spec: &AtatCmdSpec) -> (ex: Option<Exchange>)
    ensures
        !spec.expects_response_code <==> ex is None,
        ex matches Some(e) ==> e.held() == 0 && !e.sent() && e.prompt_expected() == spec.expects_prompt,
{
    if !spec.expects_response_code {
        None
    } else {
        Some(Exchange::new(spec.expects_prompt))
    }
}

/// What an exchange that ran under the command's timeout comes to: a
/// timeout when the time ran out, its own outcome otherwise.
pub open spec fn spec_response_outcome<R>(r: Result<Result<R, Error>, embassy_time::TimeoutError>) -> Result<R, Error> {
    match r {
        Err(_) => Err(Error::Timeout),
        Ok(inner) => inner,
    }
}

/// Turns the outcome of an exchange under the command's timeout into the
/// command's result.
pub fn response_outcome<R>(r: Result<Result<R, Error>, embassy_time::TimeoutError>) -> (out: Result<R, Error>)
    ensures
        out == spec_response_outcome(r),
        r is Err ==> out == Err::<R, Error>(Error::Timeout),
        r matches Ok(inner) ==> out == inner,
{
    match r {
        Err(_) => Err(Error::Timeout),
        Ok(inner) => inner,
    }
}

/// A measure of the work left in the digest loop of one exchange: twice the
/// held bytes, and one more while the payload is still to go out.
pub open spec fn digest_measure(held: nat, payload_sent: bool) -> nat {
    2 * held + if payload_sent { 0nat } else { 1nat }
}

/// Every decision that keeps the digest loop going without reading more
/// lowers the measure once its bytes are dropped: dropping swallowed bytes
/// drops at least one, and sending the payload happens once. So the loop
/// over one buffer's contents ends.
pub proof fn lemma_digest_progress<'a>(
    held: nat,
    payload_sent: bool,
    expects_prompt: bool,
    response: Option<SimpleResponse<'a>>,
    swallowed: usize,
)
    requires
        swallowed <= held,
    ensures
        ({
            let s = spec_next_step(response, swallowed, expects_prompt, payload_sent);
            &&& s matches Step::Consume(n) ==> 0 < n <= held
                && digest_measure((held - n) as nat, payload_sent) < digest_measure(held, payload_sent)
            &&& s matches Step::SendPayload(n) ==> n <= held && !payload_sent
                && digest_measure((held - n) as nat, true) < digest_measure(held, payload_sent)
        }),
{
}

/// How many times the payload goes out while an exchange digests `events`
/// one after another, each a digest with its swallowed byte count.
pub open spec fn payload_sends<'a>(
    events: Seq<(Option<SimpleResponse<'a>>, usize)>,
    expects_prompt: bool,
    payload_sent: bool,
) -> nat
    decreases events.len(),
{
    if events.len() == 0 {
        0
    } else {
        let s = spec_next_step(events[0].0, events[0].1, expects_prompt, payload_sent);
        if s is SendPayload {
            1 + payload_sends(events.drop_first(), expects_prompt, true)
        } else {
            payload_sends(events.drop_first(), expects_prompt, payload_sent)
        }
    }
}

/// Whatever the digests, an exchange sends its payload at most once, only
/// when the command expects a prompt, and never again once it has.
pub proof fn lemma_payload_at_most_once<'a>(
    events: Seq<(Option<SimpleResponse<'a>>, usize)>,
    expects_prompt: bool,
    payload_sent: bool,
)
    ensures
        payload_sends(events, expects_prompt, payload_sent) <= 1,
        payload_sent ==> payload_sends(events, expects_prompt, payload_sent) == 0,
        !expects_prompt ==> payload_sends(events, expects_prompt, payload_sent) == 0,
    decreases events.len(),
{
    if events.len() > 0 {
        lemma_payload_at_most_once(events.drop_first(), expects_prompt, true);
        lemma_payload_at_most_once(events.drop_first(), expects_prompt, payload_sent);
    }
}

/// Whatever the command expects and whatever has gone out, a final response
/// (success or any error) ends the exchange with that same response; a
/// prompt sends the payload only when one is expected and has not gone out
/// yet, and otherwise ends the exchange with an empty success; with nothing
/// for the command, the client reads more when nothing was swallowed and
/// drops the swallowed bytes otherwise.
pub proof fn lemma_next_step_table<'a>(
    resp: Result<&'a [u8], InternalError<'a>>,
    swallowed: usize,
    expects_prompt: bool,
    payload_sent: bool,
)
    ensures
        spec_next_step(Some(SimpleResponse::Response(resp)), swallowed, expects_prompt, payload_sent)
            == Step::Finish(resp),
        expects_prompt && !payload_sent ==> spec_next_step(
            Some(SimpleResponse::Prompt),
            swallowed,
            expects_prompt,
            payload_sent,
        ) == Step::<'a>::SendPayload(swallowed),
        !(expects_prompt && !payload_sent) ==> spec_next_step(
            Some(SimpleResponse::Prompt),
            swallowed,
            expects_prompt,
            payload_sent,
        ) == Step::<'a>::Finish(Ok(&[])),
        swallowed == 0 ==> spec_next_step(None, swallowed, expects_prompt, payload_sent)
            == Step::<'a>::ReadMore,
        swallowed > 0 ==> spec_next_step(None, swallowed, expects_prompt, payload_sent)
            == Step::<'a>::Consume(swallowed),
{
}

/// A final response from the digester, whether success or any error, is
/// kept for the command in flight exactly as it came; a prompt, whatever its
/// character, is kept as a prompt; a URC and an empty digest concern the
/// command not.
pub proof fn lemma_digest_keeps<'a>(resp: Result<&'a [u8], InternalError<'a>>, c: u8, urc: &'a [u8])
    ensures
        spec_digest(DigestResult::Response(resp)) == Some(SimpleResponse::Response(resp)),
        spec_digest(DigestResult::<'a>::Prompt(c)) == Some(SimpleResponse::<'a>::Prompt),
        spec_digest(DigestResult::Urc(urc)) is None,
        spec_digest(DigestResult::<'a>::Nothing) is None,
{
}

} // verus!
