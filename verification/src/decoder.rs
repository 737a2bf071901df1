//! The decoding-strategy contract and two fixed-size split strategies.

use vstd::prelude::*;

pub mod stream;

verus! {

/// What a decoding strategy reports for one byte window, described at the
/// level of mathematical values: a decoded item is given by its abstract
/// view together with the number of window bytes it covers.
pub enum Outcome<V, E> {
    /// A complete item: its abstract value, and how many bytes of the
    /// window's prefix it consumed.
    Success(V, usize),
    /// The window is too short for a complete item; the optional count is
    /// an advisory estimate of how many further bytes are needed.
    Incomplete(Option<usize>),
    /// The window cannot be parsed.
    Failure(E),
}

/// Error reported by a decoding strategy.
#[derive(Debug)]
pub enum Error<T> {
    /// More bytes are needed before an item can be decoded; the optional
    /// count is an advisory estimate of how many.
    Incomplete(Option<usize>),
    /// The bytes are invalid for this strategy.
    Custom(T),
}

/// A pluggable decoding strategy: attempts to parse one complete item from
/// a byte window.
///
/// `outcome` fixes, for the strategy's current state, what `decode` reports
/// on any window. Decoding may update internal parsing state, but never the
/// outcome for the window just examined: repeated calls on an identical
/// window agree.
pub trait Decoder: Sized {
    type Item: View;
    type Error;

    /// What this decoder, in its current state, reports for a window.
    spec fn outcome(&self, window: Seq<u8>) -> Outcome<<Self::Item as View>::V, Self::Error>;

    /// Whether this decoder carries no internal parsing state, so that
    /// decoding never changes it and outcomes depend on the window alone.
    spec fn stateless(&self) -> bool;

    /// A successful outcome never consumes more bytes than the window holds.
    proof fn lemma_consumed_within(&self, window: Seq<u8>)
        ensures
            self.outcome(window) matches Outcome::Success(_, n) ==> n <= window.len(),
    ;

    /// Item decode: on success, the item and the number of bytes of the
    /// window it consumed.
    fn decode(&mut self, bytes: &[u8]) -> (r: Result<(Self::Item, usize), Error<Self::Error>>)
        ensures
            final(self).outcome(bytes@) == old(self).outcome(bytes@),
            old(self).stateless() ==> *final(self) == *old(self),
            (match old(self).outcome(bytes@) {
                Outcome::Success(v, n) => r matches Ok((item, m)) && item@ == v && m == n,
                Outcome::Incomplete(h) => r == Err::<(Self::Item, usize), _>(
                    Error::<Self::Error>::Incomplete(h),
                ),
                Outcome::Failure(e) => r == Err::<(Self::Item, usize), _>(
                    Error::<Self::Error>::Custom(e),
                ),
            }),
    ;

    /// Fast way to check buffer
    fn check(&mut self, bytes: &[u8]) -> (r: Result<(), Error<Self::Error>>)
        ensures
            final(self).outcome(bytes@) == old(self).outcome(bytes@),
            old(self).stateless() ==> *final(self) == *old(self),
            (match old(self).outcome(bytes@) {
                Outcome::Success(_, _) => r matches Ok(()),
                Outcome::Incomplete(h) => r == Err::<(), _>(Error::<Self::Error>::Incomplete(h)),
                Outcome::Failure(e) => r == Err::<(), _>(Error::<Self::Error>::Custom(e)),
            }),
    {
        match self.decode(bytes) {
            Ok(_) => Ok(()),
            Err(e) => Err(e),
        }
    }

    /// Fast way to check needed bytes
    fn is_needed(&mut self, bytes: &[u8]) -> (r: bool)
        ensures
            final(self).outcome(bytes@) == old(self).outcome(bytes@),
            old(self).stateless() ==> *final(self) == *old(self),
            r == (final(self).outcome(bytes@) matches Outcome::Incomplete(_)),
    {
        matches!(self.check(bytes), Err(Error::Incomplete(_)))
    }
}

/// Law: a strategy is deterministic on a window — decoding an identical
/// window twice in a row yields identical outcomes, whatever internal state
/// the first call may have updated.
pub fn decode_twice<D: Decoder>(decoder: &mut D, bytes: &[u8]) -> (r: (
    Result<(D::Item, usize), Error<D::Error>>,
    Result<(D::Item, usize), Error<D::Error>>,
))
    ensures
        (match r {
            (Ok((item1, n1)), Ok((item2, n2))) => item1@ == item2@ && n1 == n2,
            (Err(e1), Err(e2)) => e1 == e2,
            _ => false,
        }),
{
    let first = decoder.decode(bytes);
    let second = decoder.decode(bytes);
    (first, second)
}

/// Fixed-size split strategy: each item is the next `N`-byte chunk of the
/// stream, returned as an owned vector of bytes.
pub struct SplitDecoder<const N: usize>;

impl<const N: usize> Decoder for SplitDecoder<N> {
    type Item = Vec<u8>;
    type Error = ();

    open spec fn outcome(&self, window: Seq<u8>) -> Outcome<Seq<u8>, ()> {
        if window.len() < N {
            Outcome::Incomplete(Some((N - window.len()) as usize))
        } else {
            Outcome::Success(window.take(N as int), N)
        }
    }

    open spec fn stateless(&self) -> bool {
        true
    }

    proof fn lemma_consumed_within(&self, window: Seq<u8>) {
    }

    fn decode(&mut self, bytes: &[u8]) -> (r: Result<(Vec<u8>, usize), Error<()>>) {
        if bytes.len() < N {
            Err(Error::Incomplete(Some(N - bytes.len())))
        } else {
            let item = vstd::slice::slice_to_vec(vstd::slice::slice_subrange(bytes, 0, N));
            Ok((item, N))
        }
    }
}

/// Fixed-size split strategy that returns each `N`-byte chunk as an owned
/// byte array.
pub struct ArraySplitDecoder<const N: usize>;

impl<const N: usize> Decoder for ArraySplitDecoder<N> {
    type Item = [u8; N];
    type Error = ();

    open spec fn outcome(&self, window: Seq<u8>) -> Outcome<Seq<u8>, ()> {
        if window.len() < N {
            Outcome::Incomplete(Some((N - window.len()) as usize))
        } else {
            Outcome::Success(window.take(N as int), N)
        }
    }

    open spec fn stateless(&self) -> bool {
        true
    }

    proof fn lemma_consumed_within(&self, window: Seq<u8>) {
    }

    fn decode(&mut self, bytes: &[u8]) -> (r: Result<([u8; N], usize), Error<()>>) {
        if bytes.len() < N {
            Err(Error::Incomplete(Some(N - bytes.len())))
        } else {
            let mut item = [0u8; N];
            let mut i: usize = 0;
            while i < N
                invariant
                    0 <= i <= N,
                    N <= bytes@.len(),
                    forall|j: int| 0 <= j < i ==> item@[j] == bytes@[j],
                decreases N - i,
            {
                let b = *vstd::slice::slice_index_get(bytes, i);
                item[i] = b;
                i += 1;
            }
            proof {
                assert(item@ =~= bytes@.take(N as int));
            }
            Ok((item, N))
        }
    }
}

} // verus!
