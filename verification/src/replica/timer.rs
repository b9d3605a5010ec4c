use std::sync::mpsc::Sender;
use vstd::prelude::*;

verus! {

/// What a timer's owner tells the thread that waits on it.
#[derive(Debug, Clone, Copy, PartialEq, Eq, Structural)]
pub enum TimerMsg {
    Reset,
    Stop,
}

#[verifier::external_type_specification]
#[verifier::external_body]
#[verifier::reject_recursive_types(T)]
pub struct ExSender<T>(Sender<T>);

/// A timer that does a task when it times out; resetting it puts the
/// timeout off, and stopping it ends it. The thread that waits holds the
/// receiving end of `sx`.
pub struct Timer {
    sx: Sender<TimerMsg>,
    sent_log: Ghost<Seq<TimerMsg>>,
    gone: Ghost<bool>,
}

impl Timer {
    /// The messages handed to the channel so far, in order.
    pub closed spec fn sent(&self) -> Seq<TimerMsg> {
        self.sent_log@
    }

    /// Whether a message could not be handed over because the waiting end
    /// was gone; it never comes back.
    pub closed spec fn hung_up(&self) -> bool {
        self.gone@
    }
}

/// Hands `msg` to `Sender::send` on the channel of `t`, and records it as
/// sent. `send` fails only when the receiving end has been dropped, and a
/// dropped receiver does not come back, so once a send failed every later
/// one fails too; whether a send succeeds is otherwise left unsaid, since
/// it depends on the waiting thread.
#[verifier::external_body]
fn send_timer_msg(t: &mut Timer, msg: TimerMsg) -> (ok: bool)
    ensures
        final(t).sent() == old(t).sent().push(msg),
        final(t).hung_up() == (old(t).hung_up() || !ok),
        old(t).hung_up() ==> !ok,
{
    t.sx.send(msg).is_ok()
}

impl Timer {
    /// A timer whose waiting thread holds the receiving end of `sx`;
    /// nothing has been sent yet.
    pub fn new(sx: Sender<TimerMsg>) -> (t: Timer)
        ensures
            t.sent() == Seq::<TimerMsg>::empty(),
            !t.hung_up(),
    {
        Timer { sx, sent_log: Ghost(Seq::empty()), gone: Ghost(false) }
    }

    /// Resets the timer: sends `Reset` to the waiting thread. `true` when
    /// the thread could be told; never after a send has failed.
    pub fn reset(&mut self) -> (ok: bool)
        ensures
            final(self).sent() == old(self).sent().push(TimerMsg::Reset),
            final(self).hung_up() == (old(self).hung_up() || !ok),
            old(self).hung_up() ==> !ok,
    {
        send_timer_msg(self, TimerMsg::Reset)
    }

    /// Stops the timer: sends `Stop` to the waiting thread. `true` when the
    /// thread could be told; never after a send has failed.
    pub fn stop(&mut self) -> (ok: bool)
        ensures
            final(self).sent() == old(self).sent().push(TimerMsg::Stop),
            final(self).hung_up() == (old(self).hung_up() || !ok),
            old(self).hung_up() ==> !ok,
    {
        send_timer_msg(self, TimerMsg::Stop)
    }
}

/// Tells the timer `timer`, if there is one, `message`: `true` when there is
/// a timer and its waiting thread could be told.
pub fn try_send(timer: &mut Option<Timer>, message: TimerMsg) -> (ok: bool)
    ensures
        *old(timer) is None ==> !ok && *final(timer) is None,
        *old(timer) matches Some(t) ==> *final(timer) matches Some(t2) && {
            &&& t2.sent() == t.sent().push(message)
            &&& t2.hung_up() == (t.hung_up() || !ok)
            &&& t.hung_up() ==> !ok
        },
{
    match timer {
        Some(t) => send_timer_msg(t, message),
        None => false,
    }
}

/// What the waiting thread of a timer saw: the timeout passed with no
/// message, a message came, or every sender is gone.
#[derive(Debug, Clone, Copy, PartialEq, Eq, Structural)]
pub enum TimerEvent {
    TimedOut,
    Received(TimerMsg),
    Disconnected,
}

/// What the waiting thread does next.
#[derive(Debug, Clone, Copy, PartialEq, Eq, Structural)]
pub enum TimerAction {
    /// Do the task, then wait again.
    Fire,
    /// Wait again.
    Wait,
    /// End the thread.
    Halt,
}

/// The timer's decision: a timeout does the task, a reset waits again, a
/// stop or a lost owner ends the thread.
pub fn timer_step(event: TimerEvent) -> (a: TimerAction)
    ensures
        a == match event {
            TimerEvent::TimedOut => TimerAction::Fire,
            TimerEvent::Received(TimerMsg::Reset) => TimerAction::Wait,
            TimerEvent::Received(TimerMsg::Stop) => TimerAction::Halt,
            TimerEvent::Disconnected => TimerAction::Halt,
        },
{
    match event {
        TimerEvent::TimedOut => TimerAction::Fire,
        TimerEvent::Received(TimerMsg::Reset) => TimerAction::Wait,
        TimerEvent::Received(TimerMsg::Stop) | TimerEvent::Disconnected => TimerAction::Halt,
    }
}

} // verus!
