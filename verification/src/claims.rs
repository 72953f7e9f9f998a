use vstd::prelude::*;
use itertools::Itertools;
use crate::capture::NewCapture;
use crate::shutdown::{StopHandshake, StopReply, spec_on_termination};

verus! {

/// Whether some claim in `s` is for the address `ip`.
pub open spec fn has_ip(s: Seq<NewCapture>, ip: i32) -> bool {
    exists|i: int| 0 <= i < s.len() && (#[trigger] s[i]).ip == ip
}

/// The claims of `s` in order, keeping only the first claim of each address.
pub open spec fn first_per_ip(s: Seq<NewCapture>) -> Seq<NewCapture>
    decreases s.len(),
{
    if s.len() == 0 {
        Seq::empty()
    } else if has_ip(s.drop_last(), s.last().ip) {
        first_per_ip(s.drop_last())
    } else {
        first_per_ip(s.drop_last()).push(s.last())
    }
}

/// Whether no two claims of `s` are for the same address.
pub open spec fn distinct_ips(s: Seq<NewCapture>) -> bool {
    forall|i: int, j: int| 0 <= i < j < s.len() ==> (#[trigger] s[i]).ip != (#[trigger] s[j]).ip
}

/// The batch that a queue of received claims is written as: the latest claim
/// of each address, latest first.
pub open spec fn latest_per_ip(queue: Seq<NewCapture>) -> Seq<NewCapture> {
    first_per_ip(queue.reverse())
}

/// Calls `Itertools::unique_by` keyed by the claim's address, which yields the
/// claims in order and skips each claim whose address an earlier one had.
#[verifier::external_body]
fn unique_by_ip(claims: Vec<NewCapture>) -> (r: Vec<NewCapture>)
    ensures
        r@ == first_per_ip(claims@),
{
    claims.into_iter().unique_by(|c| c.ip).collect()
}

/// Keeping the first claim of each address gives claims of distinct addresses,
/// covers the same addresses, and keeps of each address its first claim.
pub proof fn lemma_first_per_ip(s: Seq<NewCapture>)
    ensures
        distinct_ips(first_per_ip(s)),
        forall|ip: i32| has_ip(first_per_ip(s), ip) <==> has_ip(s, ip),
        forall|k: int|
            #![trigger first_per_ip(s)[k]]
            0 <= k < first_per_ip(s).len() ==> exists|i: int|
                0 <= i < s.len() && first_per_ip(s)[k] == s[i] && !has_ip(
                    #[trigger] s.take(i),
                    s[i].ip,
                ),
    decreases s.len(),
{
    if s.len() > 0 {
        let p = s.drop_last();
        let x = s.last();
        let rp = first_per_ip(p);
        lemma_first_per_ip(p);
        let r = first_per_ip(s);
        assert forall|ip: i32| has_ip(s, ip) <==> has_ip(p, ip) || x.ip == ip by {
            if has_ip(s, ip) {
                let i = choose|i: int| 0 <= i < s.len() && (#[trigger] s[i]).ip == ip;
                if i < p.len() {
                    assert(p[i] == s[i]);
                }
            }
            if has_ip(p, ip) {
                let i = choose|i: int| 0 <= i < p.len() && (#[trigger] p[i]).ip == ip;
                assert(s[i] == p[i]);
            }
            if x.ip == ip {
                assert(s[s.len() - 1] == x);
            }
        }
        assert forall|i: int| 0 <= i < p.len() implies #[trigger] s.take(i) == p.take(i) by {
            assert(s.take(i) =~= p.take(i));
        }
        if has_ip(p, x.ip) {
            assert(r == rp);
            assert forall|k: int| #![trigger r[k]] 0 <= k < r.len() implies exists|i: int|
                0 <= i < s.len() && r[k] == s[i] && !has_ip(#[trigger] s.take(i), s[i].ip) by {
                let i = choose|i: int| 0 <= i < p.len() && rp[k] == p[i] && !has_ip(#[trigger] p.take(i), p[i].ip);
                assert(s[i] == p[i]);
                assert(s.take(i) == p.take(i));
            }
        } else {
            assert(r == rp.push(x));
            assert forall|ip: i32| has_ip(r, ip) <==> has_ip(rp, ip) || x.ip == ip by {
                if has_ip(r, ip) {
                    let i = choose|i: int| 0 <= i < r.len() && (#[trigger] r[i]).ip == ip;
                    if i < rp.len() {
                        assert(rp[i] == r[i]);
                    }
                }
                if has_ip(rp, ip) {
                    let i = choose|i: int| 0 <= i < rp.len() && (#[trigger] rp[i]).ip == ip;
                    assert(r[i] == rp[i]);
                }
                if x.ip == ip {
                    assert(r[r.len() - 1] == x);
                }
            }
            assert forall|i: int, j: int| 0 <= i < j < r.len() implies (#[trigger] r[i]).ip != (#[trigger] r[j]).ip by {
                if j == r.len() - 1 {
                    assert(r[i] == rp[i]);
                    if r[i].ip == r[j].ip {
                        assert(has_ip(rp, x.ip));
                    }
                } else {
                    assert(r[i] == rp[i]);
                    assert(r[j] == rp[j]);
                }
            }
            assert forall|k: int| #![trigger r[k]] 0 <= k < r.len() implies exists|i: int|
                0 <= i < s.len() && r[k] == s[i] && !has_ip(#[trigger] s.take(i), s[i].ip) by {
                if k == r.len() - 1 {
                    let i = p.len() as int;
                    assert(s.take(i) =~= p);
                    assert(r[k] == s[i]);
                } else {
                    assert(r[k] == rp[k]);
                    let i = choose|i: int| 0 <= i < p.len() && rp[k] == p[i] && !has_ip(#[trigger] p.take(i), p[i].ip);
                    assert(s[i] == p[i]);
                    assert(s.take(i) == p.take(i));
                }
            }
        }
    }
}

/// Claims of distinct addresses are kept as they are.
pub proof fn lemma_first_per_ip_of_distinct(s: Seq<NewCapture>)
    requires
        distinct_ips(s),
    ensures
        first_per_ip(s) == s,
    decreases s.len(),
{
    if s.len() > 0 {
        let p = s.drop_last();
        assert forall|i: int, j: int| 0 <= i < j < p.len() implies (#[trigger] p[i]).ip != (#[trigger] p[j]).ip by {
            assert(p[i] == s[i]);
            assert(p[j] == s[j]);
        }
        lemma_first_per_ip_of_distinct(p);
        if has_ip(p, s.last().ip) {
            let i = choose|i: int| 0 <= i < p.len() && (#[trigger] p[i]).ip == s.last().ip;
            assert(s[i] == p[i]);
            assert(s[s.len() - 1] == s.last());
        }
        assert(s =~= p.push(s.last()));
    }
}

/// Some claim in `q` is for `ip` exactly when some claim of `q` reversed is.
proof fn lemma_has_ip_reverse(q: Seq<NewCapture>, ip: i32)
    ensures
        has_ip(q.reverse(), ip) <==> has_ip(q, ip),
{
    let r = q.reverse();
    if has_ip(q, ip) {
        let i = choose|i: int| 0 <= i < q.len() && (#[trigger] q[i]).ip == ip;
        assert(r[q.len() - 1 - i] == q[i]);
    }
    if has_ip(r, ip) {
        let i = choose|i: int| 0 <= i < r.len() && (#[trigger] r[i]).ip == ip;
        assert(q[q.len() - 1 - i] == r[i]);
    }
}

/// The batch written for a queue holds one claim per address that the queue
/// has a claim for, and for each address it is the latest claim received.
pub proof fn lemma_batch_keeps_latest_claims(q: Seq<NewCapture>)
    ensures
        distinct_ips(latest_per_ip(q)),
        forall|ip: i32| has_ip(latest_per_ip(q), ip) <==> has_ip(q, ip),
        forall|k: int|
            #![trigger latest_per_ip(q)[k]]
            0 <= k < latest_per_ip(q).len() ==> exists|i: int|
                0 <= i < q.len() && latest_per_ip(q)[k] == #[trigger] q[i] && forall|j: int|
                    i < j < q.len() ==> (#[trigger] q[j]).ip != q[i].ip,
{
    let r = q.reverse();
    let b = latest_per_ip(q);
    lemma_first_per_ip(r);
    assert forall|ip: i32| has_ip(b, ip) <==> has_ip(q, ip) by {
        lemma_has_ip_reverse(q, ip);
    }
    assert forall|k: int| #![trigger b[k]] 0 <= k < b.len() implies exists|i: int|
        0 <= i < q.len() && b[k] == #[trigger] q[i] && forall|j: int| i < j < q.len() ==> (#[trigger] q[j]).ip != q[i].ip by {
        let i2 = choose|i: int| 0 <= i < r.len() && b[k] == r[i] && !has_ip(#[trigger] r.take(i), r[i].ip);
        let i = q.len() - 1 - i2;
        assert(q[i] == r[i2]);
        assert forall|j: int| i < j < q.len() implies (#[trigger] q[j]).ip != q[i].ip by {
            let j2 = q.len() - 1 - j;
            assert(r.take(i2)[j2] == r[j2]);
            assert(r[j2] == q[j]);
        }
    }
}

/// A batch whose write failed, put back into an otherwise empty queue, is
/// written again as the same batch: no claim is lost or changed.
pub proof fn lemma_failed_batch_retried_unchanged(q: Seq<NewCapture>)
    ensures
        latest_per_ip(Seq::<NewCapture>::empty() + latest_per_ip(q).reverse()) == latest_per_ip(q),
{
    let b = latest_per_ip(q);
    lemma_first_per_ip(q.reverse());
    assert(Seq::<NewCapture>::empty() + b.reverse() =~= b.reverse());
    assert(b.reverse().reverse() =~= b);
    lemma_first_per_ip_of_distinct(b);
}

/// A batch whose write failed, put back behind claims received meanwhile,
/// loses no address: the next batch covers the addresses of both.
pub proof fn lemma_failed_batch_loses_no_address(newer: Seq<NewCapture>, failed: Seq<NewCapture>)
    ensures
        forall|ip: i32| has_ip(latest_per_ip(newer + failed.reverse()), ip) <==> (has_ip(newer, ip) || has_ip(failed, ip)),
{
    let q = newer + failed.reverse();
    lemma_batch_keeps_latest_claims(q);
    assert forall|ip: i32| has_ip(q, ip) <==> (has_ip(newer, ip) || has_ip(failed, ip)) by {
        lemma_has_ip_reverse(failed, ip);
        let fr = failed.reverse();
        if has_ip(q, ip) {
            let i = choose|i: int| 0 <= i < q.len() && (#[trigger] q[i]).ip == ip;
            if i < newer.len() {
                assert(newer[i] == q[i]);
            } else {
                assert(fr[i - newer.len()] == q[i]);
            }
        }
        if has_ip(newer, ip) {
            let i = choose|i: int| 0 <= i < newer.len() && (#[trigger] newer[i]).ip == ip;
            assert(q[i] == newer[i]);
        }
        if has_ip(fr, ip) {
            let i = choose|i: int| 0 <= i < fr.len() && (#[trigger] fr[i]).ip == ip;
            assert(q[newer.len() + i] == fr[i]);
        }
    }
}

/// The claim received last is written first in the next batch, whatever the
/// queue held before it: the latest claim of an address wins.
pub proof fn lemma_latest_claim_written_first(q: Seq<NewCapture>, c: NewCapture)
    ensures
        latest_per_ip(q.push(c)).len() >= 1,
        latest_per_ip(q.push(c))[0] == c,
{
    let r = q.push(c).reverse();
    assert(r =~= seq![c] + q.reverse());
    lemma_first_prefix(r, 1);
    assert(r.take(1) =~= seq![c]);
    assert(first_per_ip(seq![c].drop_last()) == Seq::<NewCapture>::empty());
    assert(!has_ip(seq![c].drop_last(), c.ip));
    assert(first_per_ip(seq![c]) =~= seq![c]);
}

/// Keeping the first claim of each address in a prefix keeps a prefix of the
/// result.
proof fn lemma_first_prefix(s: Seq<NewCapture>, n: int)
    requires
        0 <= n <= s.len(),
    ensures
        first_per_ip(s.take(n)).len() <= first_per_ip(s).len(),
        forall|k: int| 0 <= k < first_per_ip(s.take(n)).len() ==> first_per_ip(s)[k] == #[trigger] first_per_ip(s.take(n))[k],
    decreases s.len() - n,
{
    if n < s.len() {
        lemma_first_prefix(s, n + 1);
        let t = s.take(n + 1);
        assert(t.drop_last() =~= s.take(n));
        let a = first_per_ip(s.take(n));
        let b = first_per_ip(t);
        assert(b == a || b == a.push(t.last()));
        assert forall|k: int| 0 <= k < a.len() implies first_per_ip(s)[k] == #[trigger] a[k] by {
            assert(a[k] == b[k]);
        }
    } else {
        assert(s.take(n) =~= s);
    }
}

/// The claims of `v` in reverse order.
fn reversed(v: Vec<NewCapture>) -> (r: Vec<NewCapture>)
    ensures
        r@ == v@.reverse(),
{
    let ghost orig = v@;
    let mut v = v;
    let mut r: Vec<NewCapture> = Vec::new();
    while v.len() > 0
        invariant
            v@.len() <= orig.len(),
            v@ == orig.take(v@.len() as int),
            r@ == orig.skip(v@.len() as int).reverse(),
        decreases v@.len(),
    {
        let ghost n = v@.len();
        let c = v.pop().unwrap();
        r.push(c);
        proof {
            assert(v@ =~= orig.take(v@.len() as int));
            assert(orig.skip(v@.len() as int).reverse() =~= orig.skip(n as int).reverse().push(orig[n - 1]));
        }
    }
    assert(orig.skip(0) =~= orig);
    r
}

/// The batch to write for a queue of received claims (oldest first): the
/// latest claim of each address, latest first.
pub fn batch_of_queue(queue: Vec<NewCapture>) -> (batch: Vec<NewCapture>)
    ensures
        batch@ == latest_per_ip(queue@),
{
    unique_by_ip(reversed(queue))
}

/// Puts the claims of a batch whose write failed back at the end of the
/// queue, oldest first, so that they are written with the next batch.
pub fn requeue_failed_batch(queue: &mut Vec<NewCapture>, batch: Vec<NewCapture>)
    ensures
        final(queue)@ == old(queue)@ + batch@.reverse(),
{
    let mut rest = reversed(batch);
    queue.append(&mut rest);
}

/// What the claim writer is told: a request to stop, the result of receiving
/// from the claims channel (`None` once it is closed), or a tick of its
/// one-second interval.
pub enum ClaimsEvent {
    Terminate,
    Received(Option<NewCapture>),
    Tick,
}

/// What the claim writer does next.
pub enum ClaimsAction {
    /// Wait for the next event.
    Continue,
    /// Write this batch of claims to the database in one transaction; if the
    /// write fails, hand the batch back with `requeue_failed_batch`.
    Write(Vec<NewCapture>),
    /// Leave the loop, after answering on the stop channel as the reply says.
    Stop(StopReply),
}

/// The claim writer's state: claims received and not yet written, and the
/// stop handshake.
pub struct ClaimsWorker {
    pub queue: Vec<NewCapture>,
    pub stop: StopHandshake,
}

impl ClaimsWorker {
    /// A writer with no pending claims that still holds its stop sender.
    pub fn new() -> (w: Self)
        ensures
            w.queue@.len() == 0,
            w.stop.sender_held,
    {
        ClaimsWorker { queue: Vec::new(), stop: StopHandshake::new() }
    }

    /// Handles one event.
    pub fn step(&mut self, event: ClaimsEvent) -> (action: ClaimsAction)
        ensures
            match event {
                ClaimsEvent::Terminate => {
                    &&& final(self).queue@ == old(self).queue@
                    &&& action matches ClaimsAction::Stop(reply)
                    &&& (reply, final(self).stop.sender_held) == spec_on_termination(old(self).stop.sender_held)
                },
                ClaimsEvent::Received(claim) => {
                    &&& final(self).queue@ == (match claim {
                        Some(c) => old(self).queue@.push(c),
                        None => old(self).queue@,
                    })
                    &&& final(self).stop == old(self).stop
                    &&& action is Continue
                },
                ClaimsEvent::Tick => {
                    &&& final(self).queue@.len() == 0
                    &&& final(self).stop == old(self).stop
                    &&& if old(self).queue@.len() == 0 {
                        action is Continue
                    } else {
                        action matches ClaimsAction::Write(batch) && batch@ == latest_per_ip(old(self).queue@)
                    }
                },
            },
    {
        match event {
            ClaimsEvent::Terminate => ClaimsAction::Stop(self.stop.on_termination()),
            ClaimsEvent::Received(claim) => {
                if let Some(c) = claim {
                    self.queue.push(c);
                }
                ClaimsAction::Continue
            },
            ClaimsEvent::Tick => {
                let mut queue: Vec<NewCapture> = Vec::new();
                std::mem::swap(&mut queue, &mut self.queue);
                if queue.len() == 0 {
                    ClaimsAction::Continue
                } else {
                    ClaimsAction::Write(batch_of_queue(queue))
                }
            },
        }
    }

    /// Hands back a batch whose write failed.
    pub fn write_failed(&mut self, batch: Vec<NewCapture>)
        ensures
            final(self).queue@ == old(self).queue@ + batch@.reverse(),
            final(self).stop == old(self).stop,
    {
        requeue_failed_batch(&mut self.queue, batch);
    }
}

} // verus!
