use vstd::prelude::*;

verus! {

/// What a worker does with the sender on which it confirms that it stopped.
#[derive(PartialEq, Eq, Structural, Clone, Copy, Debug)]
pub enum StopReply {
    /// Send the termination token back to the waiting subsystem.
    SendToken,
    /// The sender was used already: report that instead.
    SenderConsumed,
}

/// The stop side of a worker: it holds the sender of the stop confirmation
/// until the first termination request uses it.
pub struct StopHandshake {
    pub sender_held: bool,
}

/// The reply to a termination request and whether the sender is held afterwards.
pub open spec fn spec_on_termination(sender_held: bool) -> (StopReply, bool) {
    if sender_held {
        (StopReply::SendToken, false)
    } else {
        (StopReply::SenderConsumed, false)
    }
}

impl StopHandshake {
    /// A handshake that still holds its sender.
    pub fn new() -> (h: Self)
        ensures
            h.sender_held,
    {
        StopHandshake { sender_held: true }
    }

    /// Handles a termination request (or a failure of the channel that
    /// carries it, which counts as one): uses the sender if it is held.
    pub fn on_termination(&mut self) -> (reply: StopReply)
        ensures
            (reply, final(self).sender_held) == spec_on_termination(old(self).sender_held),
    {
        if self.sender_held {
            self.sender_held = false;
            StopReply::SendToken
        } else {
            StopReply::SenderConsumed
        }
    }
}

/// The stop confirmation is sent at most once: after any termination request
/// the sender is gone, so a further request is answered without it.
pub proof fn lemma_stop_token_sent_once(sender_held: bool)
    ensures
        !spec_on_termination(sender_held).1,
        spec_on_termination(spec_on_termination(sender_held).1).0 == StopReply::SenderConsumed,
        (spec_on_termination(sender_held).0 == StopReply::SendToken) == sender_held,
{
}

/// The numbers a forced-shutdown countdown of `seconds` seconds announces,
/// one per second: `seconds` down to 1.
pub fn countdown(seconds: u64) -> (steps: Vec<u64>)
    requires
        seconds <= usize::MAX,
    ensures
        steps@.len() == seconds,
        forall|i: int| 0 <= i < seconds ==> steps@[i] == seconds - i,
{
    let mut steps: Vec<u64> = Vec::new();
    let mut i: u64 = seconds;
    while i >= 1
        invariant
            i <= seconds,
            steps@.len() == seconds - i,
            forall|j: int| 0 <= j < seconds - i ==> steps@[j] == seconds - j,
        decreases i,
    {
        steps.push(i);
        i = i - 1;
    }
    steps
}

/// How a process that runs as root gives up its privileges.
pub struct PrivDropPlan {
    /// The directory the process is confined to.
    pub chroot: &'static str,
    /// The user the process continues as.
    pub user: &'static str,
}

/// Whether and how to drop privileges: a process whose effective user is
/// root confines itself to `/app` and continues as `nobody`; any other
/// process keeps what it has.
pub fn privdrop(effective_user_is_root: bool) -> (plan: Option<PrivDropPlan>)
    ensures
        plan is Some <==> effective_user_is_root,
        plan matches Some(p) ==> p.chroot@ == "/app"@ && p.user@ == "nobody"@,
{
    if effective_user_is_root {
        Some(PrivDropPlan { chroot: "/app", user: "nobody" })
    } else {
        None
    }
}

} // verus!
