//! The client interface and its retry policy.
use vstd::prelude::*;

use crate::cmd::AtatCmd;
use crate::error::Error;

verus! {

/// Whether `send_retry` sends a command again after an attempt that ended
/// with `outcome`: after a timeout always, after a parse error when the
/// command asks for it, and never otherwise.
pub open spec fn retried<R>(outcome: Result<R, Error>, reattempt_on_parse_err: bool) -> bool {
    match outcome {
        Err(Error::Timeout) => true,
        Err(Error::Parse) => reattempt_on_parse_err,
        _ => false,
    }
}

/// What `send_retry` returns when the device would answer its successive
/// attempts with `outcomes`, and at most `attempts` attempts are made: the
/// first outcome that is not retried, or a timeout once the attempts are
/// used up.
pub open spec fn retry_result<R>(
    outcomes: Seq<Result<R, Error>>,
    attempts: nat,
    reattempt_on_parse_err: bool,
) -> Result<R, Error>
    decreases attempts,
{
    if attempts == 0 || outcomes.len() == 0 {
        Err(Error::Timeout)
    } else if !retried(outcomes[0], reattempt_on_parse_err) {
        outcomes[0]
    } else {
        retry_result(outcomes.drop_first(), (attempts - 1) as nat, reattempt_on_parse_err)
    }
}

/// How many attempts `send_retry` makes when the device would answer them
/// with `outcomes`.
pub open spec fn retry_sends<R>(
    outcomes: Seq<Result<R, Error>>,
    attempts: nat,
    reattempt_on_parse_err: bool,
) -> nat
    decreases attempts,
{
    if attempts == 0 || outcomes.len() == 0 {
        0
    } else if !retried(outcomes[0], reattempt_on_parse_err) {
        1
    } else {
        1 + retry_sends(outcomes.drop_first(), (attempts - 1) as nat, reattempt_on_parse_err)
    }
}

/// Decides, after one attempt, whether to send the command again.
pub fn should_retry<R>(outcome: &Result<R, Error>, reattempt_on_parse_err: bool) -> (again: bool)
    ensures
        again == retried(*outcome, reattempt_on_parse_err),
        again <==> (*outcome == Err::<R, Error>(Error::Timeout) || (reattempt_on_parse_err
            && *outcome == Err::<R, Error>(Error::Parse))),
{
    match outcome {
        Err(Error::Timeout) => true,
        Err(Error::Parse) => reattempt_on_parse_err,
        _ => false,
    }
}

/// The state of a `send_retry` run: how many attempts are allowed, and the
/// outcomes of those made so far.
pub struct RetryLoop<R> {
    attempts: u8,
    made: u8,
    reattempt_on_parse_err: bool,
    seen: Ghost<Seq<Result<R, Error>>>,
}

impl<R> RetryLoop<R> {
    /// How many attempts the run allows.
    pub closed spec fn attempts(&self) -> nat {
        self.attempts as nat
    }

    /// Whether a parse error is retried.
    pub closed spec fn reattempts_on_parse_err(&self) -> bool {
        self.reattempt_on_parse_err
    }

    /// The outcomes of the attempts made so far, in order.
    pub closed spec fn outcomes(&self) -> Seq<Result<R, Error>> {
        self.seen@
    }

    /// The run is consistent: no more attempts than allowed, and every one
    /// so far was retried.
    pub closed spec fn wf(&self) -> bool {
        &&& self.made as nat == self.seen@.len()
        &&& self.made <= self.attempts
        &&& forall|i: int| 0 <= i < self.seen@.len()
                ==> retried(#[trigger] self.seen@[i], self.reattempt_on_parse_err)
    }

    /// A run that allows `attempts` attempts and has made none.
    pub fn new(attempts: u8, reattempt_on_parse_err: bool) -> (run: Self)
        ensures
            run.wf(),
            run.attempts() == attempts,
            run.reattempts_on_parse_err() == reattempt_on_parse_err,
            run.outcomes() == Seq::<Result<R, Error>>::empty(),
    {
        RetryLoop { attempts, made: 0, reattempt_on_parse_err, seen: Ghost(Seq::empty()) }
    }

    /// Whether another attempt is allowed.
    pub fn may_send(&self) -> (more: bool)
        requires
            self.wf(),
        ensures
            more == (self.outcomes().len() < self.attempts()),
    {
        self.made < self.attempts
    }

    /// Records the outcome of one more attempt. Returns it when it ends the
    /// run, that is when it is not retried; then it is what `retry_result`
    /// gives for the outcomes so far.
    pub fn record(&mut self, outcome: Result<R, Error>) -> (done: Option<Result<R, Error>>)
        requires
            old(self).wf(),
            old(self).outcomes().len() < old(self).attempts(),
        ensures
            final(self).attempts() == old(self).attempts(),
            final(self).reattempts_on_parse_err() == old(self).reattempts_on_parse_err(),
            final(self).outcomes() == old(self).outcomes().push(outcome),
            retried(outcome, old(self).reattempts_on_parse_err()) ==> {
                &&& done is None
                &&& final(self).wf()
            },
            !retried(outcome, old(self).reattempts_on_parse_err()) ==> {
                &&& done == Some(outcome)
                &&& outcome == retry_result(
                    final(self).outcomes(),
                    final(self).attempts(),
                    final(self).reattempts_on_parse_err(),
                )
                &&& retry_sends(
                    final(self).outcomes(),
                    final(self).attempts(),
                    final(self).reattempts_on_parse_err(),
                ) == final(self).outcomes().len()
            },
    {
        let again = should_retry(&outcome, self.reattempt_on_parse_err);
        let ghost before = self.seen@;
        proof {
            lemma_retried_prefix(before, outcome, self.attempts as nat, self.reattempt_on_parse_err);
        }
        self.made = self.made + 1;
        self.seen = Ghost(before.push(outcome));
        if again {
            None
        } else {
            Some(outcome)
        }
    }

    /// Ends a run whose attempts are used up: the result is a timeout, which
    /// is what `retry_result` gives for the outcomes seen.
    pub fn give_up(&self) -> (r: Result<R, Error>)
        requires
            self.wf(),
            self.outcomes().len() == self.attempts(),
        ensures
            r == Err::<R, Error>(Error::Timeout),
            r == retry_result(self.outcomes(), self.attempts(), self.reattempts_on_parse_err()),
            retry_sends(self.outcomes(), self.attempts(), self.reattempts_on_parse_err())
                == self.attempts(),
    {
        proof {
            lemma_all_retried(self.seen@, self.attempts as nat, self.reattempt_on_parse_err);
        }
        Err(Error::Timeout)
    }
}

/// After outcomes that were all retried, one more outcome that is not
/// retried is what the run returns, after as many sends as outcomes.
proof fn lemma_retried_prefix<R>(
    seen: Seq<Result<R, Error>>,
    last: Result<R, Error>,
    attempts: nat,
    reattempt_on_parse_err: bool,
)
    requires
        seen.len() < attempts,
        forall|i: int| 0 <= i < seen.len() ==> retried(#[trigger] seen[i], reattempt_on_parse_err),
    ensures
        !retried(last, reattempt_on_parse_err) ==> {
            &&& retry_result(seen.push(last), attempts, reattempt_on_parse_err) == last
            &&& retry_sends(seen.push(last), attempts, reattempt_on_parse_err) == seen.len() + 1
        },
    decreases seen.len(),
{
    let all = seen.push(last);
    if seen.len() == 0 {
        assert(all[0] == last);
    } else {
        assert(all[0] == seen[0]);
        assert(all.drop_first() == seen.drop_first().push(last));
        lemma_retried_prefix(seen.drop_first(), last, (attempts - 1) as nat, reattempt_on_parse_err);
    }
}

/// When all allowed attempts were retried, the run ends with a timeout after
/// all of them.
proof fn lemma_all_retried<R>(
    seen: Seq<Result<R, Error>>,
    attempts: nat,
    reattempt_on_parse_err: bool,
)
    requires
        seen.len() == attempts,
        forall|i: int| 0 <= i < seen.len() ==> retried(#[trigger] seen[i], reattempt_on_parse_err),
    ensures
        retry_result(seen, attempts, reattempt_on_parse_err) == Err::<R, Error>(Error::Timeout),
        retry_sends(seen, attempts, reattempt_on_parse_err) == attempts,
    decreases attempts,
{
    if attempts > 0 {
        assert(retried(seen[0], reattempt_on_parse_err));
        let rest = seen.drop_first();
        assert forall|i: int| 0 <= i < rest.len() implies retried(#[trigger] rest[i], reattempt_on_parse_err) by {
            assert(rest[i] == seen[i + 1]);
        }
        lemma_all_retried(rest, (attempts - 1) as nat, reattempt_on_parse_err);
    }
}

/// A client that sends AT commands and waits for their responses.
pub trait AtatClient: Sized {
    /// Sends one command and waits for its response.
    fn send<Cmd: AtatCmd>(&mut self, cmd: &Cmd) -> Result<Cmd::Response, Error>;

    /// Sends a command up to `Cmd::ATTEMPTS` times, again after each timeout
    /// and, if `Cmd::REATTEMPT_ON_PARSE_ERR`, after each parse error; any
    /// other outcome is returned at once. When the attempts are used up the
    /// result is a timeout. The sends made are calls of `send` with `cmd`,
    /// one after the other: the first starts from the client as it was, each
    /// next one from where the one before left it, and the client ends where
    /// the last one left it. Their outcomes give the result through
    /// `retry_result`, and their number is what `retry_sends` gives: the
    /// sends stop before the last attempt only at an outcome that is not
    /// retried.
    fn send_retry<Cmd: AtatCmd>(&mut self, cmd: &Cmd) -> (r: Result<Cmd::Response, Error>)
        ensures
            r == Err::<Cmd::Response, Error>(Error::Timeout)
                || !retried(r, Cmd::REATTEMPT_ON_PARSE_ERR),
            r == Err::<Cmd::Response, Error>(Error::Timeout) || !(Cmd::REATTEMPT_ON_PARSE_ERR
                && r == Err::<Cmd::Response, Error>(Error::Parse)),
            Cmd::ATTEMPTS == 0 ==> r == Err::<Cmd::Response, Error>(Error::Timeout)
                && *final(self) == *old(self),
            exists|outcomes: Seq<Result<Cmd::Response, Error>>, states: Seq<Self>, calls: Seq<&mut Self>|
                #![trigger retry_result(outcomes, Cmd::ATTEMPTS as nat, Cmd::REATTEMPT_ON_PARSE_ERR), states.len(), calls.len()]
            {
                &&& outcomes.len() <= Cmd::ATTEMPTS
                &&& states.len() == outcomes.len() + 1
                &&& calls.len() == outcomes.len()
                &&& states[0] == *old(self)
                &&& states.last() == *final(self)
                &&& forall|i: int| 0 <= i < calls.len() ==> #[trigger] call_ensures(
                    Self::send::<Cmd>,
                    (calls[i], cmd),
                    outcomes[i],
                ) && *calls[i] == states[i] && mut_ref_future(calls[i]) == states[i + 1]
                &&& (outcomes.len() == Cmd::ATTEMPTS || (outcomes.len() > 0 && !retried(
                    outcomes.last(),
                    Cmd::REATTEMPT_ON_PARSE_ERR,
                )))
                &&& retry_result(outcomes, Cmd::ATTEMPTS as nat, Cmd::REATTEMPT_ON_PARSE_ERR) == r
                &&& retry_sends(outcomes, Cmd::ATTEMPTS as nat, Cmd::REATTEMPT_ON_PARSE_ERR) == outcomes.len()
            },
    {
        let mut run: RetryLoop<Cmd::Response> = RetryLoop::new(Cmd::ATTEMPTS, Cmd::REATTEMPT_ON_PARSE_ERR);
        let ghost mut states: Seq<Self> = seq![*self];
        assert(Seq::<&mut Self>::empty().len() == run.outcomes().len());
        while run.may_send()
            invariant
                run.wf(),
                run.attempts() == Cmd::ATTEMPTS,
                run.reattempts_on_parse_err() == Cmd::REATTEMPT_ON_PARSE_ERR,
                states.len() == run.outcomes().len() + 1,
                states[0] == *old(self),
                states.last() == *self,
                exists|calls: Seq<&mut Self>| #![trigger calls.len()] calls.len() == run.outcomes().len()
                    && forall|i: int| 0 <= i < calls.len() ==> #[trigger] call_ensures(
                        Self::send::<Cmd>,
                        (calls[i], cmd),
                        run.outcomes()[i],
                    ) && *calls[i] == states[i] && mut_ref_future(calls[i]) == states[i + 1],
            decreases run.attempts() - run.outcomes().len(),
        {
            let ghost before = run.outcomes();
            let ghost old_states = states;
            assert(exists|calls: Seq<&mut Self>| #![trigger calls.len()] calls.len() == before.len()
                && forall|i: int| 0 <= i < calls.len() ==> #[trigger] call_ensures(
                    Self::send::<Cmd>,
                    (calls[i], cmd),
                    before[i],
                ) && *calls[i] == old_states[i] && mut_ref_future(calls[i]) == old_states[i + 1]);
            let ghost pre = *self;
            let outcome = self.send(cmd);
            assert(exists|m: &mut Self|
                call_ensures(Self::send::<Cmd>, (m, cmd), outcome) && *m == pre && mut_ref_future(m) == *self);
            let done = run.record(outcome);
            proof {
                states = states.push(*self);
                lemma_calls_push(
                    Self::send::<Cmd>,
                    cmd,
                    before,
                    old_states,
                    choose|calls: Seq<&mut Self>| #![trigger calls.len()] calls.len() == before.len()
                        && forall|i: int| 0 <= i < calls.len() ==> #[trigger] call_ensures(
                            Self::send::<Cmd>,
                            (calls[i], cmd),
                            before[i],
                        ) && *calls[i] == old_states[i] && mut_ref_future(calls[i]) == old_states[i + 1],
                    outcome,
                    choose|m: &mut Self|
                        call_ensures(Self::send::<Cmd>, (m, cmd), outcome) && *m == pre && mut_ref_future(m) == *self,
                    *self,
                );
                assert(run.outcomes() == before.push(outcome));
                assert(states == old_states.push(*self));
            }
            if let Some(r) = done {
                assert(run.outcomes().last() == outcome);
                assert(retry_result(run.outcomes(), Cmd::ATTEMPTS as nat, Cmd::REATTEMPT_ON_PARSE_ERR) == r);
                assert(states.len() == run.outcomes().len() + 1);
                return r;
            }
        }
        let r = run.give_up();
        assert(retry_result(run.outcomes(), Cmd::ATTEMPTS as nat, Cmd::REATTEMPT_ON_PARSE_ERR) == r);
        assert(states.len() == run.outcomes().len() + 1);
        assert(states.last() == *self);
        assert((choose|calls: Seq<&mut Self>| #![trigger calls.len()] calls.len() == run.outcomes().len()
            && forall|i: int| 0 <= i < calls.len() ==> #[trigger] call_ensures(
                Self::send::<Cmd>,
                (calls[i], cmd),
                run.outcomes()[i],
            ) && *calls[i] == states[i] && mut_ref_future(calls[i]) == states[i + 1]).len() == run.outcomes().len());
        r
    }
}

/// One more call of `f`, from where the calls so far left the client,
/// extends their record: the references the calls took, the outcomes they
/// gave, and the client states between them.
proof fn lemma_calls_push<C, A, R, F: FnOnce(&mut C, A) -> R>(
    f: F,
    arg: A,
    outcomes: Seq<R>,
    states: Seq<C>,
    calls: Seq<&mut C>,
    outcome: R,
    m: &mut C,
    post: C,
)
    requires
        states.len() == outcomes.len() + 1,
        calls.len() == outcomes.len(),
        forall|i: int| 0 <= i < calls.len() ==> #[trigger] call_ensures(f, (calls[i], arg), outcomes[i])
            && *calls[i] == states[i] && mut_ref_future(calls[i]) == states[i + 1],
        call_ensures(f, (m, arg), outcome),
        *m == states.last(),
        mut_ref_future(m) == post,
    ensures
        calls.push(m).len() == outcomes.len() + 1,
        forall|i: int| 0 <= i < calls.push(m).len() ==> #[trigger] call_ensures(
            f,
            (calls.push(m)[i], arg),
            outcomes.push(outcome)[i],
        ) && *calls.push(m)[i] == states.push(post)[i] && mut_ref_future(calls.push(m)[i]) == states.push(
            post,
        )[i + 1],
{
    let n = outcomes.len() as int;
    assert forall|i: int| 0 <= i < calls.push(m).len() implies #[trigger] call_ensures(
        f,
        (calls.push(m)[i], arg),
        outcomes.push(outcome)[i],
    ) && *calls.push(m)[i] == states.push(post)[i] && mut_ref_future(calls.push(m)[i]) == states.push(
        post,
    )[i + 1] by {
        if i < n {
            assert(calls.push(m)[i] == calls[i]);
            assert(outcomes.push(outcome)[i] == outcomes[i]);
            assert(states.push(post)[i] == states[i]);
            assert(states.push(post)[i + 1] == states[i + 1]);
        } else {
            assert(calls.push(m)[i] == m);
            assert(outcomes.push(outcome)[i] == outcome);
            assert(states.push(post)[i] == states.last());
            assert(states.push(post)[i + 1] == post);
        }
    }
}

impl<T: AtatClient> AtatClient for &mut T {
    fn send<Cmd: AtatCmd>(&mut self, cmd: &Cmd) -> Result<Cmd::Response, Error> {
        T::send(self, cmd)
    }
}

/// A retry run ends with a timeout or with an outcome that is not retried,
/// after between one and `attempts` sends when any are allowed; it ends with
/// a timeout exactly when every allowed attempt was retried.
pub proof fn lemma_retry_result<R>(
    outcomes: Seq<Result<R, Error>>,
    attempts: nat,
    reattempt_on_parse_err: bool,
)
    requires
        outcomes.len() >= attempts,
    ensures
        ({
            let r = retry_result(outcomes, attempts, reattempt_on_parse_err);
            let n = retry_sends(outcomes, attempts, reattempt_on_parse_err);
            &&& n <= attempts
            &&& attempts > 0 ==> n >= 1
            &&& (r == Err::<R, Error>(Error::Timeout) || !retried(r, reattempt_on_parse_err))
            &&& (forall|i: int| 0 <= i < n - 1 ==> retried(#[trigger] outcomes[i], reattempt_on_parse_err))
            &&& (n > 0 && !retried(outcomes[n - 1], reattempt_on_parse_err) ==> r == outcomes[n - 1])
            &&& ((forall|i: int| 0 <= i < attempts ==> retried(#[trigger] outcomes[i], reattempt_on_parse_err))
                ==> r == Err::<R, Error>(Error::Timeout) && n == attempts)
        }),
    decreases attempts,
{
    if attempts == 0 || outcomes.len() == 0 {
    } else if !retried(outcomes[0], reattempt_on_parse_err) {
    } else {
        let rest = outcomes.drop_first();
        lemma_retry_result(rest, (attempts - 1) as nat, reattempt_on_parse_err);
        let n = retry_sends(outcomes, attempts, reattempt_on_parse_err);
        assert forall|i: int| 0 <= i < n - 1 implies retried(#[trigger] outcomes[i], reattempt_on_parse_err) by {
            if i > 0 {
                assert(outcomes[i] == rest[i - 1]);
            }
        }
        if n > 1 {
            assert(outcomes[n - 1] == rest[n - 2]);
        }
        if forall|i: int| 0 <= i < attempts ==> retried(#[trigger] outcomes[i], reattempt_on_parse_err) {
            assert forall|i: int| 0 <= i < attempts - 1 implies retried(#[trigger] rest[i], reattempt_on_parse_err) by {
                assert(rest[i] == outcomes[i + 1]);
            }
        }
    }
}

/// An outcome is sent again exactly when it is a timeout, or a parse error
/// of a command that asks for that; every other outcome, success or any
/// other error, ends the run.
pub proof fn lemma_retried_outcomes<R>(outcome: Result<R, Error>, reattempt_on_parse_err: bool)
    ensures
        retried(outcome, reattempt_on_parse_err) <==> (outcome == Err::<R, Error>(Error::Timeout) || (
        reattempt_on_parse_err && outcome == Err::<R, Error>(Error::Parse))),
{
}

/// When any attempt is allowed and the first one gives an outcome that is
/// neither a timeout nor a parse error to be reattempted, the run returns
/// that outcome after that one send.
pub proof fn lemma_retry_stops_at_once<R>(
    outcomes: Seq<Result<R, Error>>,
    attempts: nat,
    reattempt_on_parse_err: bool,
)
    requires
        attempts > 0,
        outcomes.len() > 0,
        outcomes[0] != Err::<R, Error>(Error::Timeout),
        !(reattempt_on_parse_err && outcomes[0] == Err::<R, Error>(Error::Parse)),
    ensures
        retry_result(outcomes, attempts, reattempt_on_parse_err) == outcomes[0],
        retry_sends(outcomes, attempts, reattempt_on_parse_err) == 1,
{
}

} // verus!
