//! The decisions of a command exchange.
//!
//! The client sends a command and then reads messages until it has the
//! reply it waits for. A device acknowledgement gives the sequence number
//! for the client's next command; every other device message is
//! acknowledged with `1 - seq`, and its non-empty payload is collected. The
//! exchange ends at the first collected payload that starts with the
//! expected byte. Reading, writing and timing are left to the caller.
use vstd::prelude::*;
use crate::protocol::{build_ack, packet_spec, DataType, Message};

verus! {

/// The packet that acknowledges a device message numbered `device_seq`.
pub open spec fn ack_packet(device_seq: u8) -> Seq<u8> {
    packet_spec(DataType::Ack, (1 - device_seq) as u8, Seq::<u8>::empty())
}

/// Handles one received message for the link: a device acknowledgement
/// sets the sequence number of the next command and is not answered; any
/// other message is answered with the returned acknowledgement packet.
pub fn acknowledge(seq: &mut u8, msg: &Message) -> (ack: Option<Vec<u8>>)
    requires
        msg.data_type != DataType::Ack ==> msg.seq <= 1,
    ensures
        msg.data_type == DataType::Ack ==> *final(seq) == msg.seq && ack is None,
        msg.data_type != DataType::Ack ==> *final(seq) == *old(seq) && (ack matches Some(p)
            && p@ == ack_packet(msg.seq)),
{
    if msg.data_type == DataType::Ack {
        *seq = msg.seq;
        None
    } else {
        Some(build_ack(msg.seq))
    }
}

/// The state of one command exchange: the leading byte of the awaited
/// reply, the payloads collected so far, and whether the awaited reply has
/// come.
pub struct Exchange {
    pub expect: Option<u8>,
    pub results: Vec<Vec<u8>>,
    pub done: bool,
}

/// What an exchange always satisfies: every collected payload is
/// non-empty, only the last one may start with the awaited byte, and the
/// exchange is done exactly when the last one does.
pub open spec fn exchange_wf(expect: Option<u8>, results: Seq<Seq<u8>>, done: bool) -> bool {
    &&& forall|i: int| 0 <= i < results.len() ==> #[trigger] results[i].len() > 0
    &&& forall|i: int|
        0 <= i < results.len() - 1 ==> expect != Some(#[trigger] results[i][0])
    &&& done == (results.len() > 0 && expect == Some(results.last()[0]))
}

/// The exchange state after one message: payloads of non-acknowledgement
/// messages are collected when non-empty.
pub open spec fn exchange_step(
    expect: Option<u8>,
    results: Seq<Seq<u8>>,
    done: bool,
    msg: (DataType, u8, Seq<u8>),
) -> (Seq<Seq<u8>>, bool) {
    if msg.0 != DataType::Ack && msg.2.len() > 0 {
        (results.push(msg.2), expect == Some(msg.2[0]))
    } else {
        (results, done)
    }
}

impl Exchange {
    /// A fresh exchange that waits for a reply starting with `expect`
    /// (or for none).
    pub fn new(expect: Option<u8>) -> (e: Exchange)
        ensures
            e.expect == expect,
            e.results@.len() == 0,
            !e.done,
            exchange_wf(e.expect, e.results.deep_view(), e.done),
    {
        Exchange { expect, results: Vec::new(), done: false }
    }

    /// Handles one received message: updates the link's sequence number,
    /// returns the acknowledgement to send (as `acknowledge` does), and
    /// collects the payload of a non-acknowledgement message.
    pub fn on_message(&mut self, seq: &mut u8, msg: Message) -> (ack: Option<Vec<u8>>)
        requires
            msg.data_type != DataType::Ack ==> msg.seq <= 1,
            !old(self).done,
        ensures
            msg.data_type == DataType::Ack ==> *final(seq) == msg.seq && ack is None,
            msg.data_type != DataType::Ack ==> *final(seq) == *old(seq) && (ack matches Some(p)
                && p@ == ack_packet(msg.seq)),
            final(self).expect == old(self).expect,
            (final(self).results.deep_view(), final(self).done) == exchange_step(
                old(self).expect,
                old(self).results.deep_view(),
                old(self).done,
                msg@,
            ),
            exchange_wf(old(self).expect, old(self).results.deep_view(), old(self).done)
                ==> exchange_wf(final(self).expect, final(self).results.deep_view(), final(self).done),
    {
        let ack = acknowledge(seq, &msg);
        if msg.data_type != DataType::Ack && msg.payload.len() > 0 {
            let first = msg.payload[0];
            let ghost before = self.results.deep_view();
            let ghost pl = msg.payload@;
            assert(msg.payload.deep_view() =~= pl);
            self.results.push(msg.payload);
            assert(self.results.deep_view() =~= before.push(pl)) by {
                let after = self.results.deep_view();
                assert forall|i: int| 0 <= i < after.len() implies after[i] == before.push(pl)[i] by {
                    if i < before.len() {
                        assert(after[i] == before[i]);
                    }
                }
            }
            self.done = match self.expect {
                Some(e) => e == first,
                None => false,
            };
        }
        ack
    }
}

/// The exchange state after handling `msgs` in order from a fresh
/// exchange; messages that arrive once it is done are not handled.
pub open spec fn exchange_run(expect: Option<u8>, msgs: Seq<(DataType, u8, Seq<u8>)>) -> (
    Seq<Seq<u8>>,
    bool,
)
    decreases msgs.len(),
{
    if msgs.len() == 0 {
        (Seq::empty(), false)
    } else {
        let prev = exchange_run(expect, msgs.drop_last());
        if prev.1 {
            prev
        } else {
            exchange_step(expect, prev.0, prev.1, msgs.last())
        }
    }
}

/// The non-empty payloads of the non-acknowledgement messages, in order.
pub open spec fn data_payloads(msgs: Seq<(DataType, u8, Seq<u8>)>) -> Seq<Seq<u8>>
    decreases msgs.len(),
{
    if msgs.len() == 0 {
        Seq::empty()
    } else {
        let d = data_payloads(msgs.drop_last());
        let m = msgs.last();
        if m.0 != DataType::Ack && m.2.len() > 0 {
            d.push(m.2)
        } else {
            d
        }
    }
}

/// What a command collects: the non-empty payloads of the device's
/// non-acknowledgement messages, in the order they came, up to and
/// including the first that starts with the awaited byte (all of them when
/// none does); the exchange is done exactly when such a payload came.
pub proof fn lemma_exchange_collects(expect: Option<u8>, msgs: Seq<(DataType, u8, Seq<u8>)>)
    ensures
        exchange_run(expect, msgs).0.len() <= data_payloads(msgs).len(),
        exchange_run(expect, msgs).0 == data_payloads(msgs).take(
            exchange_run(expect, msgs).0.len() as int,
        ),
        !exchange_run(expect, msgs).1 ==> exchange_run(expect, msgs).0 == data_payloads(msgs),
        exchange_run(expect, msgs).1 <==> (exists|i: int|
            0 <= i < data_payloads(msgs).len() && expect == Some(
                #[trigger] data_payloads(msgs)[i][0],
            )),
        exchange_wf(expect, exchange_run(expect, msgs).0, exchange_run(expect, msgs).1),
    decreases msgs.len(),
{
    let rs = exchange_run(expect, msgs).0;
    let done = exchange_run(expect, msgs).1;
    let dp = data_payloads(msgs);
    if msgs.len() == 0 {
        assert(dp.take(0) =~= rs);
    } else {
        let init = msgs.drop_last();
        lemma_exchange_collects(expect, init);
        lemma_data_payloads_non_empty(msgs);
        let prev = exchange_run(expect, init);
        let dprev = data_payloads(init);
        let m = msgs.last();
        let is_data = m.0 != DataType::Ack && m.2.len() > 0;
        if is_data {
            assert(dp == dprev.push(m.2));
            assert forall|i: int| 0 <= i < dprev.len() implies #[trigger] dp[i] == dprev[i] by {}
        } else {
            assert(dp == dprev);
        }
        if prev.1 {
            assert(rs == prev.0);
            assert(dp.take(rs.len() as int) =~= dprev.take(rs.len() as int));
            let i = choose|i: int| 0 <= i < dprev.len() && expect == Some(#[trigger] dprev[i][0]);
            assert(dp[i] == dprev[i]);
        } else {
            assert(prev.0 == dprev);
            if is_data {
                assert(rs == dprev.push(m.2));
                assert(dp.take(rs.len() as int) =~= dp);
                if done {
                    assert(dp[dp.len() - 1] == m.2);
                } else {
                    assert forall|i: int| 0 <= i < dp.len() implies expect != Some(
                        #[trigger] dp[i][0],
                    ) by {
                        if i < dprev.len() {
                            assert(dp[i] == dprev[i]);
                        }
                    }
                }
                assert forall|i: int| 0 <= i < rs.len() - 1 implies expect != Some(
                    #[trigger] rs[i][0],
                ) by {
                    assert(rs[i] == dprev[i]);
                }
            } else {
                assert(rs == dprev);
                assert(dp.take(rs.len() as int) =~= dp);
            }
        }
    }
}

proof fn lemma_data_payloads_non_empty(msgs: Seq<(DataType, u8, Seq<u8>)>)
    ensures
        forall|i: int|
            0 <= i < data_payloads(msgs).len() ==> #[trigger] data_payloads(msgs)[i].len() > 0,
    decreases msgs.len(),
{
    if msgs.len() > 0 {
        let d = data_payloads(msgs.drop_last());
        lemma_data_payloads_non_empty(msgs.drop_last());
        assert forall|i: int| 0 <= i < data_payloads(msgs).len() implies #[trigger] data_payloads(
            msgs,
        )[i].len() > 0 by {
            if i < d.len() {
                assert(data_payloads(msgs)[i] == d[i]);
            }
        }
    }
}

} // verus!
