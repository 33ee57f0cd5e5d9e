//! Sequencing of a reliable message channel over an unreliable byte transport:
//! the numbers each message carries, and what to do with what comes back. The
//! sending, waiting and retrying happen around these decisions.
use vstd::prelude::*;
use crate::duel::{Envelope, Message};

verus! {

/// The sequencing state of a reliable channel over the byte transport `T`.
pub struct ReliableTransport<T> {
    pub inner: T,
    /// Number of the next message to send.
    pub send_seq: u64,
    /// Highest number acknowledged or received so far.
    pub recv_ack: u64,
    /// Attempts per message before giving up.
    pub retry_limit: usize,
    /// Milliseconds to wait for each attempt.
    pub timeout_ms: u64,
}

impl<T> ReliableTransport<T> {
    /// A channel over `inner`: five attempts of 200 ms each, nothing sent or received.
    pub fn new(inner: T) -> (r: Self)
        ensures
            r.inner == inner,
            r.send_seq == 0,
            r.recv_ack == 0,
            r.retry_limit == 5,
            r.timeout_ms == 200,
    {
        ReliableTransport { inner, send_seq: 0, recv_ack: 0, retry_limit: 5, timeout_ms: 200 }
    }

    /// The same channel with `retries` attempts per message.
    pub fn with_retries(self, retries: usize) -> (r: Self)
        ensures
            r == (ReliableTransport { retry_limit: retries, ..self }),
    {
        ReliableTransport { retry_limit: retries, ..self }
    }

    /// The same channel waiting `ms` milliseconds per attempt.
    pub fn with_timeout(self, ms: u64) -> (r: Self)
        ensures
            r == (ReliableTransport { timeout_ms: ms, ..self }),
    {
        ReliableTransport { timeout_ms: ms, ..self }
    }

    /// The envelope for `payload`: the next number, and the highest number seen.
    pub fn envelope(&self, payload: Message) -> (e: Envelope)
        ensures
            e.seq == self.send_seq,
            e.ack == Some(self.recv_ack),
            e.payload == payload,
    {
        Envelope { seq: self.send_seq, ack: Some(self.recv_ack), payload }
    }

    /// After an attempt to send, given the acknowledgement that came back, if any:
    /// whether the message is now acknowledged, in which case the next number is
    /// taken. A channel whose numbers are used up acknowledges nothing more.
    pub fn on_ack(&mut self, ack: Option<u64>) -> (done: bool)
        ensures
            final(self).inner == old(self).inner,
            final(self).retry_limit == old(self).retry_limit,
            final(self).timeout_ms == old(self).timeout_ms,
            final(self).recv_ack == match ack {
                Some(a) => if a > old(self).recv_ack { a } else { old(self).recv_ack },
                None => old(self).recv_ack,
            },
            done == (old(self).send_seq <= final(self).recv_ack && old(self).send_seq < u64::MAX),
            done ==> final(self).send_seq == old(self).send_seq + 1,
            !done ==> final(self).send_seq == old(self).send_seq,
    {
        match ack {
            Some(a) => {
                if a > self.recv_ack {
                    self.recv_ack = a;
                }
            },
            None => {},
        }
        if self.send_seq <= self.recv_ack && self.send_seq < u64::MAX {
            self.send_seq = self.send_seq + 1;
            true
        } else {
            false
        }
    }

    /// Whether a received envelope numbered `seq` is new; if so it becomes the
    /// highest number seen.
    pub fn on_receive(&mut self, seq: u64) -> (accept: bool)
        ensures
            final(self).inner == old(self).inner,
            final(self).send_seq == old(self).send_seq,
            final(self).retry_limit == old(self).retry_limit,
            final(self).timeout_ms == old(self).timeout_ms,
            accept == (seq > old(self).recv_ack),
            accept ==> final(self).recv_ack == seq,
            !accept ==> final(self).recv_ack == old(self).recv_ack,
    {
        if seq <= self.recv_ack {
            return false;
        }
        self.recv_ack = seq;
        true
    }
}

} // verus!
