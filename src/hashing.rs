use crate::fileinfo::{HashMode, BLOCK_SIZE};
use siphasher::sip128::SipHasher;
use vstd::math::min;
use vstd::prelude::*;

verus! {

/// siphasher's 128-bit `SipHasher`, carried opaquely; what it has been fed
/// is named by [`sip_input`].
#[verifier::external_type_specification]
#[verifier::external_body]
pub struct ExSipHasher(siphasher::sip128::SipHasher);

/// The bytes that a hasher has been fed so far, in order. The 128-bit
/// SipHasher streams: what it holds depends on this sequence alone.
pub uninterp spec fn sip_input(h: SipHasher) -> Seq<u8>;

/// SipHash-2-4 with a 128-bit result and both keys zero, of a byte sequence.
pub uninterp spec fn sip128_of(bytes: Seq<u8>) -> u128;

/// Relies on siphasher's `SipHasher::new`: a hasher keyed with zeros that
/// has been fed nothing.
#[verifier::external_body]
fn sip_new() -> (r: SipHasher)
    ensures
        sip_input(r) == Seq::<u8>::empty(),
{
    SipHasher::new()
}

/// Relies on `Hasher::write` of siphasher's `SipHasher`: the bytes are
/// appended to what the hasher was fed, wherever the pieces were cut.
#[verifier::external_body]
fn sip_write(h: &mut SipHasher, bytes: &[u8])
    ensures
        sip_input(*final(h)) == sip_input(*old(h)) + bytes@,
{
    std::hash::Hasher::write(h, bytes)
}

/// Relies on `Hasher128::finish128` of siphasher's `SipHasher`, turned into
/// a `u128` by siphasher's `From<Hash128>`: the hash of all bytes fed.
#[verifier::external_body]
fn sip_finish(h: &SipHasher) -> (r: u128)
    ensures
        r == sip128_of(sip_input(*h)),
{
    siphasher::sip128::Hasher128::finish128(h).into()
}

/// The partial hash of a file's content: the hash of its leading block.
pub open spec fn partial_digest(content: Seq<u8>) -> u128 {
    if content.len() <= BLOCK_SIZE {
        sip128_of(content)
    } else {
        sip128_of(content.take(BLOCK_SIZE as int))
    }
}

/// The full hash of a file's content.
pub open spec fn full_digest(content: Seq<u8>) -> u128 {
    sip128_of(content)
}

/// What one read of a file gave.
pub enum ReadOutcome {
    /// The next bytes of the file.
    Bytes(Vec<u8>),
    /// The end of the file.
    End,
    /// The file could not be opened or read.
    Failed,
}

/// What a [`ContentHasher`] asks for after a read.
#[derive(PartialEq, Eq, Structural, Clone, Copy, Debug)]
pub enum HashProgress {
    /// Read on and hand over what came.
    ReadMore,
    /// Stop reading: the hash, or none where reading failed.
    Finished(Option<u128>),
}

/// Hashes a file as it is read. The caller opens the file and hands over
/// each read in turn until the hasher says it is finished; a failure to
/// open the file counts as a failed read. A partial hash covers exactly the
/// leading [`BLOCK_SIZE`] bytes, or the whole file where it is shorter,
/// however the reads were cut.
pub struct ContentHasher {
    hasher: SipHasher,
    mode: HashMode,
    finished: bool,
    fed_len: u64,
}

pub struct ContentHasherView {
    pub fed: Seq<u8>,
    pub mode: HashMode,
    pub finished: bool,
}

impl ContentHasherView {
    /// In partial mode no more than one block is ever fed, and a hasher that
    /// has not finished has been fed less than a block.
    pub open spec fn block_bounded(self) -> bool {
        self.mode == HashMode::Partial ==> self.fed.len() <= BLOCK_SIZE && (!self.finished
            ==> self.fed.len() < BLOCK_SIZE)
    }
}

impl View for ContentHasher {
    type V = ContentHasherView;

    closed spec fn view(&self) -> ContentHasherView {
        ContentHasherView { fed: sip_input(self.hasher), mode: self.mode, finished: self.finished }
    }
}

impl ContentHasher {
    /// The hasher is well formed: it counts, in partial mode, what it was fed.
    pub closed spec fn wf(&self) -> bool {
        &&& self@.block_bounded()
        &&& self.mode == HashMode::Partial ==> self.fed_len == sip_input(self.hasher).len()
    }

    /// A hasher that has read nothing yet.
    pub fn new(mode: HashMode) -> (r: Self)
        ensures
            r.wf(),
            r@ == (ContentHasherView { fed: Seq::empty(), mode, finished: false }),
    {
        ContentHasher { hasher: sip_new(), mode, finished: false, fed_len: 0 }
    }

    /// Takes the outcome of one read. A failed read ends with no hash. The
    /// end of the file, or an empty read, ends with the hash of all bytes
    /// fed. Other bytes are fed to the hash: all of them for a full hash,
    /// which then asks for more; for a partial hash, as many as fit in the
    /// block, and it ends once the block is full.
    pub fn step(&mut self, outcome: ReadOutcome) -> (r: HashProgress)
        requires
            old(self).wf(),
            !old(self)@.finished,
        ensures
            final(self).wf(),
            final(self)@.mode == old(self)@.mode,
            match outcome {
                ReadOutcome::Failed => {
                    &&& r == HashProgress::Finished(None)
                    &&& final(self)@.finished
                    &&& final(self)@.fed == old(self)@.fed
                },
                ReadOutcome::End => {
                    &&& r == HashProgress::Finished(Some(sip128_of(old(self)@.fed)))
                    &&& final(self)@.finished
                    &&& final(self)@.fed == old(self)@.fed
                },
                ReadOutcome::Bytes(b) => if b@.len() == 0 {
                    &&& r == HashProgress::Finished(Some(sip128_of(old(self)@.fed)))
                    &&& final(self)@.finished
                    &&& final(self)@.fed == old(self)@.fed
                } else if old(self)@.mode == HashMode::Full {
                    &&& final(self)@.fed == old(self)@.fed + b@
                    &&& r == HashProgress::ReadMore
                    &&& !final(self)@.finished
                } else {
                    &&& final(self)@.fed == old(self)@.fed + b@.take(
                        min(b@.len() as int, BLOCK_SIZE - old(self)@.fed.len()),
                    )
                    &&& final(self)@.fed.len() == BLOCK_SIZE ==> {
                        &&& r == HashProgress::Finished(Some(sip128_of(final(self)@.fed)))
                        &&& final(self)@.finished
                    }
                    &&& final(self)@.fed.len() < BLOCK_SIZE ==> {
                        &&& r == HashProgress::ReadMore
                        &&& !final(self)@.finished
                    }
                },
            },
    {
        match outcome {
            ReadOutcome::Failed => {
                self.finished = true;
                HashProgress::Finished(None)
            },
            ReadOutcome::End => {
                self.finished = true;
                HashProgress::Finished(Some(sip_finish(&self.hasher)))
            },
            ReadOutcome::Bytes(b) => {
                if b.len() == 0 {
                    self.finished = true;
                    return HashProgress::Finished(Some(sip_finish(&self.hasher)));
                }
                match self.mode {
                    HashMode::Full => {
                        sip_write(&mut self.hasher, b.as_slice());
                        HashProgress::ReadMore
                    },
                    HashMode::Partial => {
                        let room = BLOCK_SIZE - self.fed_len;
                        let mut b = b;
                        let ghost whole = b@;
                        if b.len() as u64 > room {
                            b.truncate(room as usize);
                        }
                        proof {
                            assert(b@ =~= whole.take(min(whole.len() as int, room as int)));
                        }
                        sip_write(&mut self.hasher, b.as_slice());
                        self.fed_len = self.fed_len + b.len() as u64;
                        if self.fed_len == BLOCK_SIZE {
                            self.finished = true;
                            HashProgress::Finished(Some(sip_finish(&self.hasher)))
                        } else {
                            HashProgress::ReadMore
                        }
                    },
                }
            },
        }
    }
}

} // verus!
