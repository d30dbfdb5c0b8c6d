use vstd::prelude::*;
use vstd::slice::slice_subrange;

verus! {

/// Why a frame could not be decoded.
#[derive(Debug, Clone, Copy, PartialEq, Eq, Structural)]
pub enum DecodeError {
    /// The source held `read` bytes where the frame asked for `expected`.
    SizeMismatch { read: usize, expected: usize },
    /// A tag byte selects no operation family, action, method or variant.
    UnknownTag { tag: u8 },
    /// A length-prefixed string is not UTF-8.
    InvalidUtf8,
    /// A payload byte is none of the values that its place allows.
    Malformed { byte: u8 },
}

/// What a decoder makes of a byte sequence: the value or the error, and the
/// bytes that are left in the source afterwards.
pub ghost struct Decoded<T> {
    pub result: Result<T, DecodeError>,
    pub rest: Seq<u8>,
}

/// A successful decoding of `value` that leaves `rest`.
pub open spec fn decoded<T>(value: T, rest: Seq<u8>) -> Decoded<T> {
    Decoded { result: Ok(value), rest }
}

/// A failed decoding that leaves `rest`.
pub open spec fn refused<T>(error: DecodeError, rest: Seq<u8>) -> Decoded<T> {
    Decoded { result: Err(error), rest }
}

/// Taking `n` bytes from the front of `bytes`. A source that holds fewer
/// gives up all it has and reports how many that were.
pub open spec fn take_bytes(bytes: Seq<u8>, n: nat) -> Decoded<Seq<u8>> {
    if n <= bytes.len() {
        decoded(bytes.take(n as int), bytes.skip(n as int))
    } else {
        refused(
            DecodeError::SizeMismatch { read: bytes.len() as usize, expected: n as usize },
            Seq::empty(),
        )
    }
}

/// Taking one byte from the front of `bytes`.
pub open spec fn take_byte(bytes: Seq<u8>) -> Decoded<u8> {
    let taken = take_bytes(bytes, 1);
    match taken.result {
        Ok(block) => decoded(block[0], taken.rest),
        Err(error) => refused(error, taken.rest),
    }
}

/// Whether `rest` is an end of `bytes`: what reading from the front of
/// `bytes` can leave.
pub open spec fn is_suffix(rest: Seq<u8>, bytes: Seq<u8>) -> bool {
    rest.len() <= bytes.len() && rest == bytes.skip(bytes.len() - rest.len())
}

/// Taking bytes leaves an end of the source, shorter by what was taken.
pub proof fn lemma_take_leaves_suffix(bytes: Seq<u8>, n: nat)
    ensures
        is_suffix(take_bytes(bytes, n).rest, bytes),
        take_bytes(bytes, n).result.is_ok() ==> take_bytes(bytes, n).rest.len() + n
            == bytes.len(),
{
    if n > bytes.len() {
        assert(bytes.skip(bytes.len() as int) =~= Seq::<u8>::empty());
    }
}

/// Taking a byte leaves an end of the source, shorter by one.
pub proof fn lemma_take_byte_leaves_suffix(bytes: Seq<u8>)
    ensures
        is_suffix(take_byte(bytes).rest, bytes),
        take_byte(bytes).result.is_ok() ==> take_byte(bytes).rest.len() + 1 == bytes.len(),
{
    lemma_take_leaves_suffix(bytes, 1);
}

/// An end of an end is an end.
pub proof fn lemma_suffix_of_suffix(inner: Seq<u8>, middle: Seq<u8>, bytes: Seq<u8>)
    requires
        is_suffix(inner, middle),
        is_suffix(middle, bytes),
    ensures
        is_suffix(inner, bytes),
{
    assert(bytes.skip(bytes.len() - middle.len()).skip(middle.len() - inner.len())
        =~= bytes.skip(bytes.len() - inner.len()));
}

/// A byte source that hands out exact amounts or fails.
pub trait SafeRead {
    /// The bytes that the source has not handed out yet.
    spec fn remaining(&self) -> Seq<u8>;

    /// Reads the next byte.
    fn try_next(&mut self) -> (res: Result<u8, DecodeError>)
        ensures
            res == take_byte(old(self).remaining()).result,
            final(self).remaining() == take_byte(old(self).remaining()).rest,
    {
        match self.try_read::<1>() {
            Ok(block) => Ok(block[0]),
            Err(error) => Err(error),
        }
    }

    /// Reads exactly `N` bytes.
    fn try_read<const N: usize>(&mut self) -> (res: Result<[u8; N], DecodeError>)
        ensures
            match res {
                Ok(block) => take_bytes(old(self).remaining(), N as nat).result == Ok::<
                    Seq<u8>,
                    DecodeError,
                >(block@),
                Err(error) => take_bytes(old(self).remaining(), N as nat).result == Err::<
                    Seq<u8>,
                    DecodeError,
                >(error),
            },
            final(self).remaining() == take_bytes(old(self).remaining(), N as nat).rest,
    ;

    /// Reads exactly `n` bytes.
    fn try_read_dyn(&mut self, n: usize) -> (res: Result<Vec<u8>, DecodeError>)
        ensures
            match res {
                Ok(block) => take_bytes(old(self).remaining(), n as nat).result == Ok::<
                    Seq<u8>,
                    DecodeError,
                >(block@),
                Err(error) => take_bytes(old(self).remaining(), n as nat).result == Err::<
                    Seq<u8>,
                    DecodeError,
                >(error),
            },
            final(self).remaining() == take_bytes(old(self).remaining(), n as nat).rest,
    ;
}

/// A byte source over a received block of bytes.
pub struct ByteReader<'a> {
    rest: &'a [u8],
}

impl<'a> ByteReader<'a> {
    /// A source that hands out `bytes` from the front.
    pub fn new(bytes: &'a [u8]) -> (reader: Self)
        ensures
            reader.remaining() == bytes@,
    {
        ByteReader { rest: bytes }
    }

    /// How many bytes are left.
    pub fn len(&self) -> (n: usize)
        ensures
            n == self.remaining().len(),
    {
        self.rest.len()
    }

    /// Whether every byte has been handed out.
    pub fn is_empty(&self) -> (empty: bool)
        ensures
            empty == (self.remaining().len() == 0),
    {
        self.rest.len() == 0
    }

    /// Gives up the source for the bytes that it has not handed out.
    pub fn into_rest(self) -> (rest: &'a [u8])
        ensures
            rest@ == self.remaining(),
    {
        self.rest
    }

    /// Splits off the first `n` bytes, or everything when fewer are left.
    fn advance(&mut self, n: usize) -> (res: Result<&'a [u8], DecodeError>)
        ensures
            match res {
                Ok(block) => take_bytes(old(self).remaining(), n as nat).result == Ok::<
                    Seq<u8>,
                    DecodeError,
                >(block@),
                Err(error) => take_bytes(old(self).remaining(), n as nat).result == Err::<
                    Seq<u8>,
                    DecodeError,
                >(error),
            },
            final(self).remaining() == take_bytes(old(self).remaining(), n as nat).rest,
    {
        let all: &'a [u8] = self.rest;
        let have = all.len();
        if n <= have {
            let block = slice_subrange(all, 0, n);
            self.rest = slice_subrange(all, n, have);
            Ok(block)
        } else {
            self.rest = slice_subrange(all, have, have);
            Err(DecodeError::SizeMismatch { read: have, expected: n })
        }
    }
}

impl<'a> SafeRead for ByteReader<'a> {
    closed spec fn remaining(&self) -> Seq<u8> {
        self.rest@
    }

    fn try_read<const N: usize>(&mut self) -> (res: Result<[u8; N], DecodeError>) {
        match self.advance(N) {
            Ok(block) => {
                let mut out = [0u8; N];
                let mut i: usize = 0;
                while i < N
                    invariant
                        i <= N,
                        block@.len() == N,
                        forall|k: int| 0 <= k < i ==> out@[k] == block@[k],
                    decreases N - i,
                {
                    out[i] = block[i];
                    i += 1;
                }
                assert(out@ =~= block@);
                Ok(out)
            },
            Err(error) => Err(error),
        }
    }

    fn try_read_dyn(&mut self, n: usize) -> (res: Result<Vec<u8>, DecodeError>) {
        match self.advance(n) {
            Ok(block) => {
                let mut out: Vec<u8> = Vec::with_capacity(n);
                let mut i: usize = 0;
                while i < n
                    invariant
                        i <= n,
                        block@.len() == n,
                        out@ == block@.take(i as int),
                    decreases n - i,
                {
                    out.push(block[i]);
                    i += 1;
                }
                assert(out@ =~= block@);
                Ok(out)
            },
            Err(error) => Err(error),
        }
    }
}

} // verus!
