//! Progressive decoding of a partially received file, and incremental
//! encoding. The streaming decoder owns an append-only byte buffer; it
//! parses the header once 70 bytes have arrived, the table of contents once
//! that many more have, and then hands out one decoded frame at a time as
//! the bytes that frame needs become available. Everything it parses is tied
//! to the same specification-level parse functions as the whole-file reader,
//! so streaming and one-shot decoding agree frame by frame.

use vstd::prelude::*;

use crate::decoder::{spec_decode_frame, Decoder};
use crate::encoder::Encoder;
use crate::reader::{
    le32_at,
    parse_frame_at,
    parse_header,
    spec_parse_frame,
    spec_parse_header,
    spec_parse_toc,
    spec_parse_toc_entry,
};
use crate::transform::TransformFrame;
use crate::types::{FloError, FloResult, Frame, Header, TocEntry};
use crate::writer::{spec_frames_writable, Writer};

verus! {

/// Where a streaming decoder stands.
#[derive(Debug, Clone, Copy, PartialEq, Eq, Structural)]
pub enum DecoderState {
    /// Fewer than 70 bytes so far.
    WaitingForHeader,
    /// Header parsed; the table of contents is not complete yet.
    WaitingForToc,
    /// Frames can be decoded as their bytes arrive.
    Ready,
    /// Every frame has been handed out.
    Finished,
    /// A parse failure; the decoder stays here until reset.
    Error,
}

/// The stream's audio parameters, known once the header has been parsed.
#[derive(Debug, Clone, PartialEq, Eq, Structural)]
pub struct StreamingAudioInfo {
    pub sample_rate: u32,
    pub channels: u8,
    pub bit_depth: u8,
    pub total_frames: u64,
    pub is_lossy: bool,
}

impl StreamingAudioInfo {
    /// The total per-channel sample count the header promises: one second
    /// of samples per frame.
    pub fn total_samples(&self) -> (r: u64)
        ensures
            r as int == (if self.total_frames * self.sample_rate <= u64::MAX {
                (self.total_frames * self.sample_rate) as int
            } else {
                u64::MAX as int
            }),
    {
        match self.total_frames.checked_mul(self.sample_rate as u64) {
            Some(v) => v,
            None => u64::MAX,
        }
    }
}

/// Whether a buffer's first 70 bytes pass the header checks: the magic is
/// present, the channel count is nonzero, and the declared TOC size is
/// plausible.
pub open spec fn spec_header_accepted(b: Seq<u8>) -> bool {
    &&& b.len() >= 70
    &&& b.subrange(0, 4) == crate::types::spec_magic()
    &&& spec_parse_header(b).channels != 0
    &&& 4 <= spec_parse_header(b).toc_size <= 0x20_0000
}

/// The fault a failing header reports, in check order.
pub open spec fn spec_header_fault(b: Seq<u8>) -> FloError {
    if b.subrange(0, 4) != crate::types::spec_magic() {
        FloError::BadMagic
    } else if spec_parse_header(b).channels == 0 {
        FloError::ZeroChannels
    } else {
        FloError::InvalidTocSize
    }
}

/// Whether the whole declared table of contents has been buffered.
pub open spec fn spec_toc_have(b: Seq<u8>) -> bool {
    spec_header_accepted(b) && b.len() >= 70 + spec_parse_header(b).toc_size
}

/// Whether the buffered table of contents passes its checks.
pub open spec fn spec_toc_accepted(b: Seq<u8>) -> bool {
    &&& spec_toc_have(b)
    &&& le32_at(b, 70) <= 100_000
    &&& spec_parse_header(b).toc_size == 4 + 20 * (le32_at(b, 70) as int)
}

/// The fault a failing table of contents reports, in check order.
pub open spec fn spec_toc_fault(b: Seq<u8>) -> FloError {
    if le32_at(b, 70) > 100_000 {
        FloError::TooManyTocEntries
    } else {
        FloError::InvalidTocSize
    }
}

/// How many entries from `i` on name windows lying entirely within the
/// buffered bytes, stopping at the first incomplete one.
pub open spec fn spec_complete_from(
    toc: Seq<TocEntry>,
    doff: int,
    blen: int,
    i: nat,
) -> nat
    decreases toc.len() - i,
{
    if i >= toc.len() {
        0
    } else if doff + toc[i as int].byte_offset + toc[i as int].frame_size <= blen {
        1 + spec_complete_from(toc, doff, blen, i + 1)
    } else {
        0
    }
}

/// Draining a ready decoder from entry `i`: each complete window must parse
/// to a decodable frame, whose samples are concatenated; the first
/// incomplete window ends the drain.
pub open spec fn spec_drain(
    b: Seq<u8>,
    toc: Seq<TocEntry>,
    doff: int,
    ch: u8,
    i: nat,
) -> FloResult<Seq<i32>>
    decreases toc.len() - i,
{
    if i >= toc.len() {
        Ok(Seq::empty())
    } else {
        let e = toc[i as int];
        if doff + e.byte_offset + e.frame_size > b.len() {
            Ok(Seq::empty())
        } else {
            match spec_parse_frame(b, doff + e.byte_offset, e.frame_size as int, ch) {
                Err(er) => Err(er),
                Ok(fm) => if fm.frame_type == 253 || fm.frame_samples > 2_000_000 {
                    Err(FloError::BadTransformFrame)
                } else {
                    match spec_drain(b, toc, doff, ch, i + 1) {
                        Err(er) => Err(er),
                        Ok(rest) => Ok(spec_decode_frame(fm, ch) + rest),
                    }
                },
            }
        }
    }
}

/// Reads one second of audio at a time out of a growing byte buffer.
pub struct StreamingDecoder {
    buffer: Vec<u8>,
    state: DecoderState,
    header: Option<Header>,
    toc: Vec<TocEntry>,
    current_frame: usize,
    data_offset: usize,
}

impl StreamingDecoder {
    /// The bytes received so far.
    pub closed spec fn spec_buffer(&self) -> Seq<u8> {
        self.buffer@
    }

    pub closed spec fn spec_state(&self) -> DecoderState {
        self.state
    }

    pub closed spec fn spec_header(&self) -> Option<Header> {
        self.header
    }

    pub closed spec fn spec_toc(&self) -> Seq<TocEntry> {
        self.toc@
    }

    pub closed spec fn spec_current_frame(&self) -> nat {
        self.current_frame as nat
    }

    /// The internal consistency the decoder maintains: once the header is
    /// parsed it equals the header the whole-file grammar reads from the
    /// buffer, and once the table of contents is parsed it does too.
    pub closed spec fn wf(&self) -> bool {
        &&& (self.state is WaitingForHeader ==> self.header is None && self.toc@.len() == 0
            && self.current_frame == 0)
        &&& (self.state is WaitingForToc ==> {
            &&& self.buffer@.len() >= 70
            &&& self.buffer@.subrange(0, 4) == crate::types::spec_magic()
            &&& self.header == Some(spec_parse_header(self.buffer@))
            &&& self.toc@.len() == 0
            &&& self.current_frame == 0
            &&& (self.header->Some_0).toc_size >= 4
            &&& (self.header->Some_0).toc_size <= 0x20_0000
        })
        &&& ((self.state is Ready || self.state is Finished) ==> {
            &&& self.buffer@.len() >= 70
            &&& self.header == Some(spec_parse_header(self.buffer@))
            &&& (self.header->Some_0).toc_size == 4 + 20 * self.toc@.len()
            &&& self.toc@.len() <= 100_000
            &&& self.data_offset == 70 + (self.header->Some_0).toc_size
            &&& self.data_offset <= self.buffer@.len()
            &&& self.toc@ == spec_parse_toc(self.buffer@, self.toc@.len() as nat)
            &&& self.current_frame <= self.toc@.len()
        })
    }

    pub fn new() -> (d: StreamingDecoder)
        ensures
            d.wf(),
            d.spec_state() is WaitingForHeader,
            d.spec_buffer() == Seq::<u8>::empty(),
    {
        StreamingDecoder {
            buffer: Vec::new(),
            state: DecoderState::WaitingForHeader,
            header: None,
            toc: Vec::new(),
            current_frame: 0,
            data_offset: 0,
        }
    }

    /// The current state.
    pub fn state(&self) -> (s: DecoderState)
        ensures
            s == self.spec_state(),
    {
        self.state
    }

    /// The stream parameters, once the header has arrived.
    pub fn info(&self) -> (r: Option<StreamingAudioInfo>)
        ensures
            r is Some <==> self.spec_header() is Some,
            r is Some ==> {
                let h = self.spec_header()->Some_0;
                r->Some_0 == StreamingAudioInfo {
                    sample_rate: h.sample_rate,
                    channels: h.channels,
                    bit_depth: h.bit_depth,
                    total_frames: h.total_frames,
                    is_lossy: h.flags & 1 == 1,
                }
            },
    {
        match &self.header {
            Some(h) => Some(
                StreamingAudioInfo {
                    sample_rate: h.sample_rate,
                    channels: h.channels,
                    bit_depth: h.bit_depth,
                    total_frames: h.total_frames,
                    is_lossy: h.flags & 1 == 1,
                },
            ),
            None => None,
        }
    }

    /// Bytes buffered so far.
    pub fn buffered_bytes(&self) -> (n: usize)
        ensures
            n == self.spec_buffer().len(),
    {
        self.buffer.len()
    }

    /// The index of the next frame to decode.
    pub fn current_frame_index(&self) -> (n: usize)
        ensures
            n == self.spec_current_frame(),
    {
        self.current_frame
    }

    /// The number of leading table-of-contents windows that lie entirely
    /// within the received bytes.
    pub closed spec fn spec_complete(&self) -> nat {
        spec_complete_from(
            self.toc@,
            70 + (self.header->Some_0).toc_size,
            self.buffer@.len() as int,
            0,
        )
    }

    /// How many frames of the table of contents lie completely within the
    /// received bytes.
    fn count_complete_frames(&self) -> (n: usize)
        requires
            self.wf(),
            self.spec_state() is Ready || self.spec_state() is Finished,
        ensures
            n == self.spec_complete(),
    {
        let mut count: usize = 0;
        let buf_len: u64 = self.buffer.len() as u64;
        let doff: u64 = self.data_offset as u64;
        let ghost whole = self.spec_complete();
        while count < self.toc.len()
            invariant
                count <= self.toc@.len(),
                buf_len == self.buffer@.len(),
                doff == 70 + (self.header->Some_0).toc_size,
                whole == self.spec_complete(),
                whole == count + spec_complete_from(
                    self.toc@,
                    doff as int,
                    buf_len as int,
                    count as nat,
                ),
            decreases self.toc@.len() - count,
        {
            let e = self.toc[count];
            let end: u64 = match e.byte_offset.checked_add(e.frame_size as u64) {
                Some(v) => v,
                None => {
                    return count;
                },
            };
            match doff.checked_add(end) {
                Some(total) => {
                    if total > buf_len {
                        return count;
                    }
                },
                None => {
                    return count;
                },
            }
            count = count + 1;
        }
        count
    }

    /// Frames ready to decode but not yet handed out: in the ready state,
    /// the complete windows beyond the cursor; zero otherwise.
    pub fn available_frames(&self) -> (n: usize)
        requires
            self.wf(),
        ensures
            self.spec_state() is Ready ==> n == (if self.spec_complete()
                > self.spec_current_frame() {
                self.spec_complete() - self.spec_current_frame()
            } else {
                0int
            }),
            !(self.spec_state() is Ready) ==> n == 0,
    {
        if !matches!(self.state, DecoderState::Ready) {
            return 0;
        }
        let complete: usize = self.count_complete_frames();
        if complete > self.current_frame {
            complete - self.current_frame
        } else {
            0
        }
    }

    /// Frames whose bytes are complete, whether or not already handed out:
    /// in the ready state, the count of complete leading windows; zero
    /// otherwise.
    pub fn frames_available(&self) -> (n: usize)
        requires
            self.wf(),
        ensures
            self.spec_state() is Ready ==> n == self.spec_complete(),
            !(self.spec_state() is Ready) ==> n == 0,
    {
        if !matches!(self.state, DecoderState::Ready) {
            return 0;
        }
        self.count_complete_frames()
    }

    /// Appends received bytes and advances the state machine exactly as the
    /// format's state diagram says: the header is parsed once 70 bytes have
    /// arrived (or the named fault ends the stream), the table of contents
    /// once its declared bytes have, and then the decoder is ready; the
    /// returned flag says whether undelivered complete frames exist. In the
    /// error and finished states the bytes are ignored.
    pub fn feed(&mut self, data: &[u8]) -> (r: FloResult<bool>)
        requires
            old(self).wf(),
        ensures
            final(self).wf(),
            (old(self).spec_state() is Error || old(self).spec_state() is Finished)
                ==> *final(self) == *old(self) && r == Ok::<bool, FloError>(false),
            !(old(self).spec_state() is Error || old(self).spec_state() is Finished)
                ==> final(self).spec_buffer() == old(self).spec_buffer() + data@,
            r is Err ==> final(self).spec_state() is Error,
            ({
                let nb = old(self).spec_buffer() + data@;
                &&& (old(self).spec_state() is WaitingForHeader && nb.len() < 70 ==> final(self).spec_state() is WaitingForHeader && r == Ok::<bool, FloError>(false))
                &&& (old(self).spec_state() is WaitingForHeader && nb.len() >= 70
                    && !spec_header_accepted(nb) ==> final(self).spec_state() is Error && r
                    == Err::<bool, FloError>(spec_header_fault(nb)))
                &&& ((old(self).spec_state() is WaitingForHeader || old(self).spec_state()
                    is WaitingForToc) && spec_header_accepted(nb) && !spec_toc_have(nb) ==> final(self).spec_state() is WaitingForToc && r == Ok::<bool, FloError>(false) && final(self).spec_header() == Some(spec_parse_header(nb)))
                &&& ((old(self).spec_state() is WaitingForHeader || old(self).spec_state()
                    is WaitingForToc) && spec_toc_have(nb) && !spec_toc_accepted(nb) ==> final(self).spec_state() is Error && r == Err::<bool, FloError>(spec_toc_fault(nb)))
                &&& ((old(self).spec_state() is WaitingForHeader || old(self).spec_state()
                    is WaitingForToc) && spec_toc_accepted(nb) ==> final(self).spec_state()
                    is Ready && r == Ok::<bool, FloError>(true) && final(self).spec_header()
                    == Some(spec_parse_header(nb)) && final(self).spec_toc() == spec_parse_toc(
                    nb,
                    le32_at(nb, 70) as nat,
                ) && final(self).spec_current_frame() == old(self).spec_current_frame())
                &&& (old(self).spec_state() is Ready ==> final(self).spec_state() is Ready
                    && final(self).spec_toc() == old(self).spec_toc() && final(self).spec_current_frame() == old(self).spec_current_frame() && r == Ok::<
                    bool,
                    FloError,
                >(final(self).spec_complete() > final(self).spec_current_frame()))
            }),
    {
        if matches!(self.state, DecoderState::Error) || matches!(
            self.state,
            DecoderState::Finished,
        ) {
            return Ok(false);
        }
        let ghost oldbuf = self.buffer@;
        crate::writer::push_bytes(&mut self.buffer, data);
        proof {
            lemma_prefix_parse_stable(oldbuf, data@);
            if self.state is WaitingForToc {
                assert(self.buffer@.subrange(0, 4) =~= oldbuf.subrange(0, 4));
            }
            if self.state is Ready {
                assert(spec_parse_toc(self.buffer@, self.toc@.len() as nat) =~= spec_parse_toc(
                    oldbuf,
                    self.toc@.len() as nat,
                )) by {
                    assert forall|i: int|
                        0 <= i < self.toc@.len() implies spec_parse_toc_entry(self.buffer@, i)
                        == spec_parse_toc_entry(oldbuf, i) by {
                        lemma_toc_entry_stable(oldbuf, data@, i, self.toc@.len() as int);
                    }
                }
            }
        }
        self.try_advance()
    }

    /// Advances as far as the buffered bytes allow.
    fn try_advance(&mut self) -> (r: FloResult<bool>)
        requires
            old(self).wf(),
            !(old(self).spec_state() is Error),
            !(old(self).spec_state() is Finished),
        ensures
            final(self).wf(),
            final(self).spec_buffer() == old(self).spec_buffer(),
            r is Err ==> final(self).spec_state() is Error,
            ({
                let nb = old(self).spec_buffer();
                &&& (old(self).spec_state() is WaitingForHeader && nb.len() < 70 ==> final(self).spec_state() is WaitingForHeader && r == Ok::<bool, FloError>(false))
                &&& (old(self).spec_state() is WaitingForHeader && nb.len() >= 70
                    && !spec_header_accepted(nb) ==> final(self).spec_state() is Error && r
                    == Err::<bool, FloError>(spec_header_fault(nb)))
                &&& ((old(self).spec_state() is WaitingForHeader || old(self).spec_state()
                    is WaitingForToc) && spec_header_accepted(nb) && !spec_toc_have(nb) ==> final(self).spec_state() is WaitingForToc && r == Ok::<bool, FloError>(false) && final(self).spec_header() == Some(spec_parse_header(nb)))
                &&& ((old(self).spec_state() is WaitingForHeader || old(self).spec_state()
                    is WaitingForToc) && spec_toc_have(nb) && !spec_toc_accepted(nb) ==> final(self).spec_state() is Error && r == Err::<bool, FloError>(spec_toc_fault(nb)))
                &&& ((old(self).spec_state() is WaitingForHeader || old(self).spec_state()
                    is WaitingForToc) && spec_toc_accepted(nb) ==> final(self).spec_state()
                    is Ready && r == Ok::<bool, FloError>(true) && final(self).spec_header()
                    == Some(spec_parse_header(nb)) && final(self).spec_toc() == spec_parse_toc(
                    nb,
                    le32_at(nb, 70) as nat,
                ) && final(self).spec_current_frame() == old(self).spec_current_frame())
                &&& (old(self).spec_state() is Ready ==> final(self).spec_state() is Ready
                    && final(self).spec_toc() == old(self).spec_toc() && final(self).spec_current_frame() == old(self).spec_current_frame() && r == Ok::<
                    bool,
                    FloError,
                >(final(self).spec_complete() > final(self).spec_current_frame()))
            }),
    {
        if matches!(self.state, DecoderState::WaitingForHeader) {
            if self.buffer.len() < 70 {
                return Ok(false);
            }
            let buf: &[u8] = self.buffer.as_slice();
            if !(buf[0] == 0x46 && buf[1] == 0x4c && buf[2] == 0x4f && buf[3] == 0x21) {
                self.state = DecoderState::Error;
                return Err(FloError::BadMagic);
            }
            proof {
                assert(self.buffer@.subrange(0, 4) =~= crate::types::spec_magic());
            }
            let h: Header = crate::reader::parse_header(buf);
            if h.channels == 0 {
                self.state = DecoderState::Error;
                return Err(FloError::ZeroChannels);
            }
            if h.toc_size < 4 || h.toc_size > 0x20_0000 {
                self.state = DecoderState::Error;
                return Err(FloError::InvalidTocSize);
            }
            self.header = Some(h);
            self.state = DecoderState::WaitingForToc;
        }
        if matches!(self.state, DecoderState::WaitingForToc) {
            let h: Header = match &self.header {
                Some(h) => h.clone(),
                None => {
                    self.state = DecoderState::Error;
                    return Err(FloError::MissingHeader);
                },
            };
            let toc_size: usize = h.toc_size as usize;
            if self.buffer.len() < 70 + toc_size {
                return Ok(false);
            }
            let buf: &[u8] = self.buffer.as_slice();
            let n: u32 = crate::reader::read_u32_at(buf, 70);
            if n > 100_000 {
                self.state = DecoderState::Error;
                return Err(FloError::TooManyTocEntries);
            }
            if h.toc_size != 4 + 20 * (n as u64) {
                self.state = DecoderState::Error;
                return Err(FloError::InvalidTocSize);
            }
            let mut toc: Vec<TocEntry> = Vec::new();
            let mut i: usize = 0;
            while i < (n as usize)
                invariant
                    i <= n,
                    n <= 100_000,
                    toc@.len() == i,
                    74 + 20 * (n as int) <= self.buffer@.len(),
                    forall|q: int|
                        0 <= q < i ==> #[trigger] toc@[q] == spec_parse_toc_entry(
                            self.buffer@,
                            q,
                        ),
                decreases n - i,
            {
                let buf2: &[u8] = self.buffer.as_slice();
                let base: usize = 74 + 20 * i;
                let e = TocEntry {
                    frame_index: crate::reader::read_u32_at(buf2, base),
                    byte_offset: crate::reader::read_u64_at(buf2, base + 4),
                    frame_size: crate::reader::read_u32_at(buf2, base + 12),
                    timestamp_ms: crate::reader::read_u32_at(buf2, base + 16),
                };
                toc.push(e);
                i = i + 1;
            }
            proof {
                assert(toc@ =~= spec_parse_toc(self.buffer@, n as nat));
            }
            self.toc = toc;
            self.data_offset = 70 + toc_size;
            self.state = DecoderState::Ready;
            return Ok(true);
        }
        if matches!(self.state, DecoderState::Ready) {
            let complete: usize = self.count_complete_frames();
            return Ok(complete > self.current_frame);
        }
        Ok(false)
    }

    /// Decodes the next frame when its bytes are complete: in the ready
    /// state, with entries left and the next entry's window fully buffered,
    /// the result is exactly that window's decoded samples and the cursor
    /// moves forward (or the window's parse fault); with no entries left the
    /// stream finishes; with an incomplete window, or outside the ready
    /// state, nothing happens. Concatenating the outputs therefore equals
    /// the one-shot decode of the same frames.
    pub fn next_frame(&mut self) -> (r: FloResult<Option<Vec<i32>>>)
        requires
            old(self).wf(),
        ensures
            final(self).wf(),
            final(self).spec_buffer() == old(self).spec_buffer(),
            !(old(self).spec_state() is Ready) ==> *final(self) == *old(self) && r == Ok::<
                Option<Vec<i32>>,
                FloError,
            >(None),
            old(self).spec_state() is Ready && old(self).spec_current_frame() >= old(
                self,
            ).spec_toc().len() ==> final(self).spec_state() is Finished && r == Ok::<
                Option<Vec<i32>>,
                FloError,
            >(None) && final(self).spec_current_frame() == old(self).spec_current_frame()
                && final(self).spec_toc() == old(self).spec_toc(),
            ({
                let h = old(self).spec_header()->Some_0;
                let e = old(self).spec_toc()[old(self).spec_current_frame() as int];
                let lo = 70 + h.toc_size + e.byte_offset;
                let fm = spec_parse_frame(
                    old(self).spec_buffer(),
                    lo as int,
                    e.frame_size as int,
                    h.channels,
                );
                old(self).spec_state() is Ready && old(self).spec_current_frame() < old(
                    self,
                ).spec_toc().len() ==> {
                    &&& (lo + e.frame_size > old(self).spec_buffer().len() ==> *final(self)
                        == *old(self) && r == Ok::<Option<Vec<i32>>, FloError>(None))
                    &&& (lo + e.frame_size <= old(self).spec_buffer().len() && fm is Err
                        ==> *final(self) == *old(self) && r == Err::<Option<Vec<i32>>, FloError>(
                        fm->Err_0,
                    ))
                    &&& (lo + e.frame_size <= old(self).spec_buffer().len() && fm is Ok && (
                    (fm->Ok_0).frame_type == 253 || (fm->Ok_0).frame_samples > 2_000_000)
                        ==> *final(self) == *old(self) && r == Err::<Option<Vec<i32>>, FloError>(
                        FloError::BadTransformFrame,
                    ))
                    &&& (lo + e.frame_size <= old(self).spec_buffer().len() && fm is Ok && (
                    fm->Ok_0).frame_type != 253 && (fm->Ok_0).frame_samples <= 2_000_000 ==> r
                        is Ok && (r->Ok_0) is Some && ((r->Ok_0)->Some_0)@ == spec_decode_frame(
                        fm->Ok_0,
                        h.channels,
                    ) && final(self).spec_current_frame() == old(self).spec_current_frame() + 1
                        && final(self).spec_toc() == old(self).spec_toc() && final(
                    self).spec_state() is Ready)
                }
            }),
    {
        if !matches!(self.state, DecoderState::Ready) {
            return Ok(None);
        }
        let h: Header = match &self.header {
            Some(h) => h.clone(),
            None => {
                return Err(FloError::MissingHeader);
            },
        };
        if self.current_frame >= self.toc.len() {
            self.state = DecoderState::Finished;
            return Ok(None);
        }
        let e: TocEntry = self.toc[self.current_frame];
        let blen: usize = self.buffer.len();
        let frame_start: u64 = match (self.data_offset as u64).checked_add(e.byte_offset) {
            Some(v) => v,
            None => {
                proof {
                    assert(70 + (self.header->Some_0).toc_size + e.byte_offset + e.frame_size
                        > blen);
                }
                return Ok(None);
            },
        };
        let frame_end: u64 = match frame_start.checked_add(e.frame_size as u64) {
            Some(v) => v,
            None => {
                proof {
                    assert(70 + (self.header->Some_0).toc_size + e.byte_offset + e.frame_size
                        > blen);
                }
                return Ok(None);
            },
        };
        if frame_end > blen as u64 {
            return Ok(None);
        }
        let buf: &[u8] = self.buffer.as_slice();
        let frame: Frame = match crate::reader::parse_frame_at(
            buf,
            frame_start as usize,
            e.frame_size as usize,
            h.channels,
        ) {
            Ok(f) => f,
            Err(er) => {
                return Err(er);
            },
        };
        if frame.frame_type == 253 || frame.frame_samples > 2_000_000 {
            return Err(FloError::BadTransformFrame);
        }
        self.current_frame = self.current_frame + 1;
        let decoder = Decoder::new();
        let samples: Vec<i32> = decoder.decode_frame_samples(&frame, h.channels);
        Ok(Some(samples))
    }

    /// Hands out the next complete frame of a lossy stream parsed as a
    /// transform frame, advancing past it; the float synthesis and the
    /// pre-roll drop stay with the caller. A frame of any other type is
    /// refused, mirroring `next_frame`'s refusal of transform frames.
    pub fn next_transform_frame(&mut self) -> (r: FloResult<Option<TransformFrame>>)
        requires
            old(self).wf(),
        ensures
            final(self).wf(),
            final(self).spec_buffer() == old(self).spec_buffer(),
            !(old(self).spec_state() is Ready) ==> *final(self) == *old(self) && r == Ok::<
                Option<TransformFrame>,
                FloError,
            >(None),
            old(self).spec_state() is Ready && old(self).spec_current_frame() >= old(
                self,
            ).spec_toc().len() ==> final(self).spec_state() is Finished && r == Ok::<
                Option<TransformFrame>,
                FloError,
            >(None) && final(self).spec_current_frame() == old(self).spec_current_frame()
                && final(self).spec_toc() == old(self).spec_toc(),
            ({
                let h = old(self).spec_header()->Some_0;
                let e = old(self).spec_toc()[old(self).spec_current_frame() as int];
                let lo = 70 + h.toc_size + e.byte_offset;
                let fm = spec_parse_frame(
                    old(self).spec_buffer(),
                    lo as int,
                    e.frame_size as int,
                    h.channels,
                );
                old(self).spec_state() is Ready && old(self).spec_current_frame() < old(
                self,
                ).spec_toc().len() ==> {
                    &&& (lo + e.frame_size > old(self).spec_buffer().len() ==> *final(self)
                        == *old(self) && r == Ok::<Option<TransformFrame>, FloError>(None))
                    &&& (lo + e.frame_size <= old(self).spec_buffer().len() && fm is Err
                        ==> *final(self) == *old(self) && r == Err::<
                        Option<TransformFrame>,
                        FloError,
                    >(fm->Err_0))
                    &&& (lo + e.frame_size <= old(self).spec_buffer().len() && fm is Ok && (
                    fm->Ok_0).frame_type != 253 ==> *final(self) == *old(self) && r == Err::<
                        Option<TransformFrame>,
                        FloError,
                    >(FloError::BadTransformFrame))
                    &&& (lo + e.frame_size <= old(self).spec_buffer().len() && fm is Ok && (
                    fm->Ok_0).frame_type == 253 ==> {
                        let payload = (fm->Ok_0).channels[0].residuals;
                        &&& (!crate::transform::spec_frame_layout_ok(payload) ==> *final(self)
                            == *old(self) && r == Err::<Option<TransformFrame>, FloError>(
                            FloError::BadTransformFrame,
                        ))
                        &&& (crate::transform::spec_frame_layout_ok(payload) ==> r is Ok && (
                        r->Ok_0) is Some && crate::transform::spec_frame_matches(
                            (r->Ok_0)->Some_0,
                            payload,
                        ) && final(self).spec_current_frame() == old(self).spec_current_frame()
                            + 1 && final(self).spec_toc() == old(self).spec_toc() && final(
                        self).spec_state() is Ready)
                    })
                }
            }),
    {
        if !matches!(self.state, DecoderState::Ready) {
            return Ok(None);
        }
        let h: Header = match &self.header {
            Some(h) => h.clone(),
            None => {
                return Err(FloError::MissingHeader);
            },
        };
        if self.current_frame >= self.toc.len() {
            self.state = DecoderState::Finished;
            return Ok(None);
        }
        let e: TocEntry = self.toc[self.current_frame];
        let blen: usize = self.buffer.len();
        let frame_start: u64 = match (self.data_offset as u64).checked_add(e.byte_offset) {
            Some(v) => v,
            None => {
                proof {
                    assert(70 + (self.header->Some_0).toc_size + e.byte_offset + e.frame_size
                        > blen);
                }
                return Ok(None);
            },
        };
        let frame_end: u64 = match frame_start.checked_add(e.frame_size as u64) {
            Some(v) => v,
            None => {
                proof {
                    assert(70 + (self.header->Some_0).toc_size + e.byte_offset + e.frame_size
                        > blen);
                }
                return Ok(None);
            },
        };
        if frame_end > blen as u64 {
            return Ok(None);
        }
        let buf: &[u8] = self.buffer.as_slice();
        let frame: Frame = match crate::reader::parse_frame_at(
            buf,
            frame_start as usize,
            e.frame_size as usize,
            h.channels,
        ) {
            Ok(f) => f,
            Err(er) => {
                return Err(er);
            },
        };
        if frame.frame_type != 253 {
            return Err(FloError::BadTransformFrame);
        }
        proof {
            let b = self.spec_buffer();
            let lo = frame_start as int;
            let size = e.frame_size as int;
            let fm0 = spec_parse_frame(b, lo, size, h.channels)->Ok_0;
            let samples = le32_at(b, lo + 1);
            let sz = le32_at(b, lo + 6) as int;
            assert(crate::reader::spec_parse_channels(
                b,
                lo + 6 + 4 + sz,
                lo + size,
                crate::types::FrameType::Transform,
                samples,
                0,
            ) == Ok::<Seq<crate::reader::ChannelModel>, FloError>(Seq::empty()));
            assert(fm0.channels.len() == 1);
            assert(crate::reader::frame_model(frame).channels == fm0.channels);
            assert(frame.channels@.len() == 1);
            assert(crate::reader::channel_model(frame.channels@[0]).residuals
                == fm0.channels[0].residuals);
            assert(frame.channels@[0].residuals@ == fm0.channels[0].residuals);
        }
        let tf: TransformFrame = match crate::transform::deserialize_frame(
            frame.channels[0].residuals.as_slice(),
        ) {
            Some(t) => t,
            None => {
                return Err(FloError::BadTransformFrame);
            },
        };
        self.current_frame = self.current_frame + 1;
        Ok(Some(tf))
    }

    /// Decodes every frame whose bytes are complete and concatenates the
    /// samples, finishing the stream: in the ready state the output is
    /// exactly the drain of the remaining complete windows (or the first
    /// window's fault); in any other state nothing happens.
    pub fn decode_available(&mut self) -> (r: FloResult<Vec<i32>>)
        requires
            old(self).wf(),
        ensures
            final(self).wf(),
            !(old(self).spec_state() is Ready) ==> *final(self) == *old(self) && r is Ok && (
            r->Ok_0)@ == Seq::<i32>::empty(),
            ({
                let h = old(self).spec_header()->Some_0;
                let d = spec_drain(
                    old(self).spec_buffer(),
                    old(self).spec_toc(),
                    70 + h.toc_size,
                    h.channels,
                    old(self).spec_current_frame(),
                );
                old(self).spec_state() is Ready ==> {
                    &&& (d is Ok ==> r is Ok && (r->Ok_0)@ == d->Ok_0 && final(self).spec_state()
                        is Finished)
                    &&& (d is Err ==> r == Err::<Vec<i32>, FloError>(d->Err_0))
                }
            }),
    {
        let mut out: Vec<i32> = Vec::new();
        if !matches!(self.state, DecoderState::Ready) {
            return Ok(out);
        }
        let ghost b0 = self.spec_buffer();
        let ghost toc0 = self.spec_toc();
        let ghost h0 = self.spec_header()->Some_0;
        let ghost cur0 = self.spec_current_frame();
        let ghost whole = spec_drain(b0, toc0, 70 + h0.toc_size, h0.channels, cur0);
        proof {
            if whole is Ok {
                assert(Seq::<i32>::empty() + whole->Ok_0 =~= whole->Ok_0);
            }
        }
        loop
            invariant_except_break
                self.spec_state() is Ready,
                ({
                    let rest = spec_drain(
                        b0,
                        toc0,
                        70 + h0.toc_size,
                        h0.channels,
                        self.spec_current_frame(),
                    );
                    &&& (rest is Ok ==> whole is Ok && whole->Ok_0 == out@ + rest->Ok_0)
                    &&& (rest is Err ==> whole is Err && whole->Err_0 == rest->Err_0)
                }),
            invariant
                self.wf(),
                old(self).spec_state() is Ready,
                b0 == old(self).spec_buffer(),
                toc0 == old(self).spec_toc(),
                h0 == old(self).spec_header()->Some_0,
                cur0 == old(self).spec_current_frame(),
                self.spec_buffer() == b0,
                self.spec_toc() == toc0,
                self.spec_header() == Some(h0),
                whole == spec_drain(b0, toc0, 70 + h0.toc_size, h0.channels, cur0),
            ensures
                self.wf(),
                self.spec_state() is Ready || self.spec_state() is Finished,
                self.spec_buffer() == b0,
                whole is Ok && out@ == whole->Ok_0,
            decreases self.spec_toc().len() - self.spec_current_frame(),
        {
            if !matches!(self.state, DecoderState::Ready) {
                break ;
            }
            if self.current_frame >= self.toc.len() {
                proof {
                    assert(spec_drain(
                        b0,
                        toc0,
                        70 + h0.toc_size,
                        h0.channels,
                        self.spec_current_frame(),
                    ) == Ok::<Seq<i32>, FloError>(Seq::empty()));
                    assert(out@ + Seq::<i32>::empty() =~= out@);
                }
                break ;
            }
            let ghost before = self.spec_current_frame();
            let ghost out_before = out@;
            let step = self.next_frame();
            match step {
                Ok(Some(mut samples)) => {
                    let ghost got = samples@;
                    out.append(&mut samples);
                    proof {
                        let doff = 70 + h0.toc_size as int;
                        let rest0 = spec_drain(b0, toc0, doff, h0.channels, before);
                        let rest1 = spec_drain(
                            b0,
                            toc0,
                            doff,
                            h0.channels,
                            self.spec_current_frame(),
                        );
                        let e = toc0[before as int];
                        let fm = spec_parse_frame(
                            b0,
                            doff + e.byte_offset,
                            e.frame_size as int,
                            h0.channels,
                        );
                        assert(doff + e.byte_offset + e.frame_size <= b0.len() && fm is Ok && (
                        fm->Ok_0).frame_type != 253 && (fm->Ok_0).frame_samples <= 2_000_000);
                        assert(got == spec_decode_frame(fm->Ok_0, h0.channels));
                        if rest1 is Ok {
                            assert(rest0 is Ok && rest0->Ok_0 == got + rest1->Ok_0);
                            assert(out@ + rest1->Ok_0 =~= out_before + rest0->Ok_0);
                        } else {
                            assert(rest0 is Err && rest0->Err_0 == rest1->Err_0);
                        }
                    }
                },
                Ok(None) => {
                    proof {
                        assert(spec_drain(
                            b0,
                            toc0,
                            70 + h0.toc_size,
                            h0.channels,
                            before,
                        ) == Ok::<Seq<i32>, FloError>(Seq::empty()));
                        assert(out@ + Seq::<i32>::empty() =~= out@);
                    }
                    break ;
                },
                Err(e) => {
                    proof {
                        let doff = 70 + h0.toc_size as int;
                        let rest0 = spec_drain(b0, toc0, doff, h0.channels, before);
                        assert(rest0 is Err && rest0->Err_0 == e);
                    }
                    return Err(e);
                },
            }
        }
        self.state = DecoderState::Finished;
        proof {
            assert(self.wf());
        }
        Ok(out)
    }

    /// Clears all state, ready for a new stream.
    pub fn reset(&mut self)
        ensures
            final(self).wf(),
            final(self).spec_state() is WaitingForHeader,
            final(self).spec_buffer() == Seq::<u8>::empty(),
    {
        self.buffer = Vec::new();
        self.state = DecoderState::WaitingForHeader;
        self.header = None;
        self.toc = Vec::new();
        self.current_frame = 0;
        self.data_offset = 0;
    }
}

/// Little-endian reads inside the old prefix are unchanged by appending.
proof fn lemma_prefix_parse_stable(b: Seq<u8>, ext: Seq<u8>)
    ensures
        b.len() >= 70 ==> spec_parse_header(b + ext) == spec_parse_header(b),
{
    if b.len() >= 70 {
        lemma_le_stable(b, ext, 6, 2);
        lemma_le_stable(b, ext, 8, 4);
        lemma_le_stable(b, ext, 14, 8);
        lemma_le_stable(b, ext, 26, 4);
        lemma_le_stable(b, ext, 30, 8);
        lemma_le_stable(b, ext, 38, 8);
        lemma_le_stable(b, ext, 46, 8);
        lemma_le_stable(b, ext, 54, 8);
        lemma_le_stable(b, ext, 62, 8);
    }
}

/// A subrange within the original bytes is unchanged by appending.
proof fn lemma_le_stable(b: Seq<u8>, ext: Seq<u8>, p: int, k: int)
    requires
        0 <= p,
        0 <= k,
        p + k <= b.len(),
    ensures
        (b + ext).subrange(p, p + k) == b.subrange(p, p + k),
{
    assert((b + ext).subrange(p, p + k) =~= b.subrange(p, p + k));
}

/// A table-of-contents entry within the original bytes is unchanged by
/// appending.
proof fn lemma_toc_entry_stable(b: Seq<u8>, ext: Seq<u8>, i: int, n: int)
    requires
        0 <= i < n,
        74 + 20 * n <= b.len(),
    ensures
        spec_parse_toc_entry(b + ext, i) == spec_parse_toc_entry(b, i),
{
    assert(74 + 20 * i + 20 <= b.len()) by (nonlinear_arith)
        requires
            0 <= i < n,
            74 + 20 * n <= b.len(),
    ;
    lemma_le_stable(b, ext, 74 + 20 * i, 4);
    lemma_le_stable(b, ext, 78 + 20 * i, 8);
    lemma_le_stable(b, ext, 86 + 20 * i, 4);
    lemma_le_stable(b, ext, 90 + 20 * i, 4);
}

/// One encoded frame ready for transmission.
#[derive(Debug, Clone, PartialEq, Eq)]
pub struct EncodedFrame {
    pub index: u32,
    pub timestamp_ms: u32,
    pub data: Vec<u8>,
    pub samples: u32,
}

/// Buffers interleaved samples and encodes whole one-second frames as they
/// fill, assembling a complete file on demand.
pub struct StreamingEncoder {
    sample_rate: u32,
    channels: u8,
    bit_depth: u8,
    compression_level: u8,
    sample_buffer: Vec<i32>,
    frames: Vec<Frame>,
    pending: Vec<EncodedFrame>,
    total_rows: u64,
}

impl StreamingEncoder {
    pub closed spec fn wf(&self) -> bool {
        &&& 1 <= self.channels
        &&& 1 <= self.sample_rate <= 2_000_000
        &&& (self.sample_buffer@.len() as int) % (self.channels as int) == 0
        &&& self.sample_buffer@.len() < (self.sample_rate as int) * (self.channels as int)
        &&& forall|i: int|
            0 <= i < self.sample_buffer@.len() ==> -0x8000 <= #[trigger] self.sample_buffer@[i]
                <= 0x7fff
        &&& self.frames@.len() == self.pending@.len()
        &&& self.frames@.len() <= 100_000
        &&& spec_frames_writable(self.frames@)
    }

    /// Every queued blob is exactly the serialized form of its frame.
    pub closed spec fn blobs_match(&self) -> bool {
        forall|i: int|
            0 <= i < self.pending@.len() ==> (#[trigger] self.pending@[i]).data@
                == crate::writer::spec_frame_bytes(self.frames@[i])
    }

    /// Every sample the encoder still holds: the decodes of the queued
    /// frames, oldest first, followed by the buffered remainder. Pushing
    /// samples appends to it; taking a frame removes its decode from the
    /// front; nothing is ever lost or invented.
    pub closed spec fn spec_queued_samples(&self) -> Seq<i32> {
        crate::decoder::spec_decode_frames(
            self.frames@.map_values(|fr: Frame| crate::reader::frame_model(fr)),
            self.channels,
        ) + self.sample_buffer@
    }

    /// The interleaved samples buffered but not yet framed.
    pub closed spec fn spec_buffered(&self) -> Seq<i32> {
        self.sample_buffer@
    }

    /// A streaming encoder for the given stream parameters.
    pub fn new(sample_rate: u32, channels: u8, bit_depth: u8) -> (e: StreamingEncoder)
        requires
            1 <= channels,
            1 <= sample_rate <= 2_000_000,
        ensures
            e.wf(),
            e.blobs_match(),
            e.spec_queued_samples() == Seq::<i32>::empty(),
            e.spec_rate() == sample_rate,
            e.spec_channels() == channels,
            e.spec_depth() == bit_depth,
    {
        proof {
            let empty_frames = Seq::<Frame>::empty();
            assert(empty_frames.map_values(|fr: Frame| crate::reader::frame_model(fr))
                =~= Seq::<crate::reader::FrameModel>::empty());
            vstd::arithmetic::mul::lemma_mul_strictly_positive(
                sample_rate as int,
                channels as int,
            );
            vstd::arithmetic::div_mod::lemma_small_mod(0, channels as nat);
        }
        StreamingEncoder {
            sample_rate,
            channels,
            bit_depth,
            compression_level: 5,
            sample_buffer: Vec::new(),
            frames: Vec::new(),
            pending: Vec::new(),
            total_rows: 0,
        }
    }

    /// Sets the compression level, capped at 9.
    pub fn with_compression(self, level: u8) -> (e: StreamingEncoder)
        requires
            self.wf(),
            self.blobs_match(),
        ensures
            e.wf(),
            e.blobs_match(),
            e.spec_level() == (if level > 9 {
                9u8
            } else {
                level
            }),
            e.spec_rate() == self.spec_rate(),
            e.spec_channels() == self.spec_channels(),
            e.spec_depth() == self.spec_depth(),
            e.spec_queued_samples() == self.spec_queued_samples(),
    {
        let l: u8 = if level > 9 {
            9
        } else {
            level
        };
        StreamingEncoder { compression_level: l, ..self }
    }

    /// Rows (one sample per channel) buffered but not yet framed.
    pub fn pending_samples(&self) -> (n: usize)
        requires
            self.wf(),
    {
        self.sample_buffer.len() / (self.channels as usize)
    }

    /// Encoded frames waiting to be taken.
    pub fn pending_frames(&self) -> (n: usize)
    {
        self.pending.len()
    }

    /// Buffers interleaved samples and encodes every complete one-second
    /// frame they fill.
    pub fn push_samples(&mut self, samples: &[i32]) -> (r: FloResult<()>)
        requires
            old(self).wf(),
            old(self).blobs_match(),
            (samples@.len() as int) % (old(self).spec_channels() as int) == 0,
            forall|i: int| 0 <= i < samples@.len() ==> -0x8000 <= #[trigger] samples@[i] <= 0x7fff,
        ensures
            r is Ok ==> final(self).wf(),
            final(self).wf_except_buffer_bound(),
            final(self).blobs_match(),
            final(self).spec_queued_samples() == old(self).spec_queued_samples() + samples@,
            final(self).spec_rate() == old(self).spec_rate(),
            final(self).spec_channels() == old(self).spec_channels(),
            final(self).spec_depth() == old(self).spec_depth(),
            final(self).spec_level() == old(self).spec_level(),
    {
        crate::writer::push_i32s(&mut self.sample_buffer, samples);
        proof {
            assert(self.spec_queued_samples() =~= old(self).spec_queued_samples() + samples@);
        }
        proof {
            vstd::arithmetic::div_mod::lemma_add_mod_noop(
                old(self).sample_buffer@.len() as int,
                samples@.len() as int,
                self.channels as int,
            );
            vstd::arithmetic::div_mod::lemma_small_mod(0, self.channels as nat);
        }
        self.try_encode_frames()
    }

    fn try_encode_frames(&mut self) -> (r: FloResult<()>)
        requires
            old(self).wf_except_buffer_bound(),
            old(self).blobs_match(),
        ensures
            r is Ok ==> final(self).wf(),
            final(self).wf_except_buffer_bound(),
            final(self).blobs_match(),
            final(self).spec_queued_samples() == old(self).spec_queued_samples(),
            final(self).spec_rate() == old(self).spec_rate(),
            final(self).spec_channels() == old(self).spec_channels(),
            final(self).spec_depth() == old(self).spec_depth(),
            final(self).spec_level() == old(self).spec_level(),
    {
        let nch: usize = self.channels as usize;
        proof {
            assert((self.sample_rate as int) * (self.channels as int) <= 2_000_000 * 255)
                by (nonlinear_arith)
                requires
                    1 <= self.sample_rate <= 2_000_000,
                    1 <= self.channels <= 255,
            ;
            vstd::arithmetic::mul::lemma_mul_strictly_positive(
                self.sample_rate as int,
                self.channels as int,
            );
        }
        let frame_len: usize = (self.sample_rate as usize) * nch;
        while self.sample_buffer.len() >= frame_len
            invariant
                self.wf_except_buffer_bound(),
                self.blobs_match(),
                frame_len == (self.sample_rate as int) * (self.channels as int),
                frame_len >= 1,
                self.spec_queued_samples() == old(self).spec_queued_samples(),
                self.sample_rate == old(self).sample_rate,
                self.channels == old(self).channels,
                self.bit_depth == old(self).bit_depth,
                self.compression_level == old(self).compression_level,
            decreases self.sample_buffer@.len(),
        {
            let ghost pre = *self;
            if self.frames.len() >= 100_000 {
                return Err(FloError::TooManyFrames);
            }
            let rest: Vec<i32> = self.sample_buffer.split_off(frame_len);
            let chunk: Vec<i32> = self.sample_buffer.split_off(0);
            self.sample_buffer = rest;
            proof {
                assert(chunk@ =~= old(self).sample_buffer@.skip(0).take(0) + chunk@);
                assert((chunk@.len() as int) % (self.channels as int) == 0) by {
                    vstd::arithmetic::div_mod::lemma_mod_multiples_basic(
                        self.sample_rate as int,
                        self.channels as int,
                    );
                    vstd::arithmetic::mul::lemma_mul_is_commutative(
                        self.sample_rate as int,
                        self.channels as int,
                    );
                }
                assert((chunk@.len() as int) / (self.channels as int) == self.sample_rate as int)
                    by {
                    vstd::arithmetic::div_mod::lemma_fundamental_div_mod_converse(
                        chunk@.len() as int,
                        self.channels as int,
                        self.sample_rate as int,
                        0,
                    );
                    vstd::arithmetic::mul::lemma_mul_is_commutative(
                        self.sample_rate as int,
                        self.channels as int,
                    );
                }
                vstd::arithmetic::div_mod::lemma_sub_mod_noop(
                    chunk@.len() as int + self.sample_buffer@.len() as int,
                    chunk@.len() as int,
                    self.channels as int,
                );
                vstd::arithmetic::div_mod::lemma_small_mod(0, self.channels as nat);
                assert(frame_len >= self.channels as int) by (nonlinear_arith)
                    requires
                        frame_len == (self.sample_rate as int) * (self.channels as int),
                        self.sample_rate >= 1,
                        self.channels >= 1,
                ;
            }
            let enc = Encoder {
                sample_rate: self.sample_rate,
                channels: self.channels,
                bit_depth: self.bit_depth,
                compression_level: self.compression_level,
            };
            let frame: Frame = enc.encode_frame(chunk.as_slice());
            let blob: Vec<u8> = match crate::writer::build_frame_bytes(&frame) {
                Ok(b) => b,
                Err(e) => {
                    proof {
                        assert(crate::writer::spec_frame_writable(frame));
                        assert(false);
                    }
                    return Err(e);
                },
            };
            let ts: u64 = match self.total_rows.checked_mul(1000) {
            Some(v) => v / (self.sample_rate as u64),
            None => 0,
        };
            self.pending.push(
                EncodedFrame {
                    index: self.frames.len() as u32,
                    timestamp_ms: #[verifier::truncate] (ts as u32),
                    data: blob,
                    samples: frame.frame_samples,
                },
            );
            self.frames.push(frame);
            proof {
                let fmv = pre.frames@.map_values(|fr: Frame| crate::reader::frame_model(fr));
                let fmv2 = self.frames@.map_values(|fr: Frame| crate::reader::frame_model(fr));
                assert(fmv2.drop_last() =~= fmv);
                assert(fmv2.last() == crate::reader::frame_model(frame));
                assert(crate::decoder::spec_decode_frame(
                    crate::reader::frame_model(frame),
                    self.channels,
                ) == chunk@);
                assert(crate::decoder::spec_decode_frames(fmv2, self.channels)
                    =~= crate::decoder::spec_decode_frames(fmv, self.channels) + chunk@);
                assert(chunk@ + self.sample_buffer@ =~= pre.sample_buffer@);
                assert(self.spec_queued_samples() =~= pre.spec_queued_samples());
            }
            match self.total_rows.checked_add(self.sample_rate as u64) {
                Some(v) => {
                    self.total_rows = v;
                },
                None => {},
            }
        }
        Ok(())
    }

    /// Like `wf` but without the bound on the buffered sample count.
    pub closed spec fn wf_except_buffer_bound(&self) -> bool {
        &&& 1 <= self.channels
        &&& 1 <= self.sample_rate <= 2_000_000
        &&& (self.sample_buffer@.len() as int) % (self.channels as int) == 0
        &&& forall|i: int|
            0 <= i < self.sample_buffer@.len() ==> -0x8000 <= #[trigger] self.sample_buffer@[i]
                <= 0x7fff
        &&& self.frames@.len() == self.pending@.len()
        &&& self.frames@.len() <= 100_000
        &&& spec_frames_writable(self.frames@)
    }

    /// Hands out the next encoded frame, oldest first.
    pub fn next_frame(&mut self) -> (r: Option<EncodedFrame>)
        requires
            old(self).wf(),
            old(self).blobs_match(),
        ensures
            final(self).wf(),
            final(self).blobs_match(),
            (r is Some) == (old(self).spec_pending().len() > 0),
            r is Some ==> r->Some_0 == old(self).spec_pending()[0] && (r->Some_0).data@
                == crate::writer::spec_frame_bytes(old(self).spec_frames()[0]),
            r is Some ==> old(self).spec_queued_samples() == crate::decoder::spec_decode_frame(
                crate::reader::frame_model(old(self).spec_frames()[0]),
                old(self).spec_channels(),
            ) + final(self).spec_queued_samples(),
            r is None ==> final(self).spec_queued_samples() == old(self).spec_queued_samples(),
            final(self).spec_buffered() == old(self).spec_buffered(),
            final(self).spec_rate() == old(self).spec_rate(),
            final(self).spec_channels() == old(self).spec_channels(),
            final(self).spec_depth() == old(self).spec_depth(),
            final(self).spec_level() == old(self).spec_level(),
    {
        if self.pending.len() == 0 {
            None
        } else {
            let f = self.pending.remove(0);
            let taken: Frame = self.frames.remove(0);
            proof {
                assert(self.pending@ =~= old(self).spec_pending().skip(1));
                assert(self.frames@ =~= old(self).spec_frames().skip(1));
                assert forall|i: int|
                    0 <= i < self.frames@.len() implies crate::writer::spec_frame_writable(
                    #[trigger] self.frames@[i],
                ) by {
                    assert(self.frames@[i] == old(self).spec_frames()[i + 1]);
                }
                assert forall|i: int|
                    0 <= i < self.pending@.len() implies (#[trigger] self.pending@[i]).data@
                    == crate::writer::spec_frame_bytes(self.frames@[i]) by {
                    assert(self.pending@[i] == old(self).spec_pending()[i + 1]);
                    assert(self.frames@[i] == old(self).spec_frames()[i + 1]);
                }
                let fmv = old(self).frames@.map_values(|fr: Frame| crate::reader::frame_model(fr));
                let fmv2 = self.frames@.map_values(|fr: Frame| crate::reader::frame_model(fr));
                crate::decoder::lemma_decode_frames_first(fmv, self.channels);
                assert(fmv.skip(1) =~= fmv2);
                assert(fmv[0] == crate::reader::frame_model(old(self).spec_frames()[0]));
                assert(old(self).spec_queued_samples() =~= crate::decoder::spec_decode_frame(
                    crate::reader::frame_model(old(self).spec_frames()[0]),
                    self.channels,
                ) + self.spec_queued_samples());
            }
            Some(f)
        }
    }

    pub closed spec fn spec_pending(&self) -> Seq<EncodedFrame> {
        self.pending@
    }

    pub closed spec fn spec_frames(&self) -> Seq<Frame> {
        self.frames@
    }

    /// Encodes whatever partial frame remains in the buffer.
    pub fn flush(&mut self) -> (r: FloResult<()>)
        requires
            old(self).wf(),
            old(self).blobs_match(),
        ensures
            r is Ok ==> final(self).wf(),
            final(self).wf_except_buffer_bound(),
            final(self).blobs_match(),
            final(self).spec_queued_samples() == old(self).spec_queued_samples(),
            (r is Ok) == (old(self).spec_buffered().len() == 0 || old(self).spec_frames().len()
                < 100_000),
            r is Err ==> r->Err_0 == FloError::TooManyFrames && *final(self) == *old(self),
            r is Ok ==> final(self).spec_buffered().len() == 0,
            final(self).spec_rate() == old(self).spec_rate(),
            final(self).spec_channels() == old(self).spec_channels(),
            final(self).spec_depth() == old(self).spec_depth(),
            final(self).spec_level() == old(self).spec_level(),
    {
        if self.sample_buffer.len() == 0 {
            return Ok(());
        }
        if self.frames.len() >= 100_000 {
            return Err(FloError::TooManyFrames);
        }
        let chunk: Vec<i32> = self.sample_buffer.split_off(0);
        proof {
            assert(chunk@.len() >= self.channels as int) by {
                if (chunk@.len() as int) < (self.channels as int) {
                    vstd::arithmetic::div_mod::lemma_small_mod(
                        chunk@.len() as nat,
                        self.channels as nat,
                    );
                }
            }
            vstd::arithmetic::div_mod::lemma_small_mod(0, self.channels as nat);
            assert((chunk@.len() as int) / (self.channels as int) <= 2_000_000) by {
                vstd::arithmetic::div_mod::lemma_div_is_ordered(
                    chunk@.len() as int,
                    (self.sample_rate as int) * (self.channels as int),
                    self.channels as int,
                );
                vstd::arithmetic::div_mod::lemma_fundamental_div_mod_converse(
                    (self.sample_rate as int) * (self.channels as int),
                    self.channels as int,
                    self.sample_rate as int,
                    0,
                );
                vstd::arithmetic::mul::lemma_mul_is_commutative(
                    self.sample_rate as int,
                    self.channels as int,
                );
                vstd::arithmetic::div_mod::lemma_mod_multiples_basic(
                    self.sample_rate as int,
                    self.channels as int,
                );
            }
        }
        let enc = Encoder {
            sample_rate: self.sample_rate,
            channels: self.channels,
            bit_depth: self.bit_depth,
            compression_level: self.compression_level,
        };
        let frame: Frame = enc.encode_frame(chunk.as_slice());
        let blob: Vec<u8> = match crate::writer::build_frame_bytes(&frame) {
            Ok(b) => b,
            Err(e) => {
                proof {
                    assert(crate::writer::spec_frame_writable(frame));
                    assert(false);
                }
                return Err(e);
            },
        };
        let ts: u64 = match self.total_rows.checked_mul(1000) {
            Some(v) => v / (self.sample_rate as u64),
            None => 0,
        };
        self.pending.push(
            EncodedFrame {
                index: self.frames.len() as u32,
                timestamp_ms: #[verifier::truncate] (ts as u32),
                data: blob,
                samples: frame.frame_samples,
            },
        );
        self.frames.push(frame);
        proof {
            let fmv = old(self).frames@.map_values(|fr: Frame| crate::reader::frame_model(fr));
            let fmv2 = self.frames@.map_values(|fr: Frame| crate::reader::frame_model(fr));
            assert(fmv2.drop_last() =~= fmv);
            assert(fmv2.last() == crate::reader::frame_model(frame));
            assert(crate::decoder::spec_decode_frame(crate::reader::frame_model(frame), self.channels)
                == chunk@);
            assert(crate::decoder::spec_decode_frames(fmv2, self.channels)
                =~= crate::decoder::spec_decode_frames(fmv, self.channels) + chunk@);
            assert(chunk@ =~= old(self).sample_buffer@);
            assert(self.spec_queued_samples() =~= old(self).spec_queued_samples());
        }
        Ok(())
    }

    /// Flushes and assembles the complete file around every frame encoded
    /// so far, then clears the frame queue.
    pub fn finalize(&mut self, metadata: &[u8]) -> (r: FloResult<Vec<u8>>)
        requires
            old(self).wf(),
            old(self).blobs_match(),
        ensures
            (r is Ok) == (old(self).spec_buffered().len() == 0 || old(self).spec_frames().len()
                < 100_000),
            r is Err ==> r->Err_0 == FloError::TooManyFrames,
            r is Ok ==> final(self).wf() && final(self).blobs_match(),
            r is Ok ==> exists|fs: Seq<Frame>|
                (#[trigger] crate::writer::spec_file_bytes(
                    crate::writer::spec_written_header(
                        old(self).spec_rate(),
                        old(self).spec_channels(),
                        old(self).spec_depth(),
                        old(self).spec_level(),
                        false,
                        0,
                        fs,
                        metadata@,
                    ),
                    fs,
                    metadata@,
                )) == (r->Ok_0)@ && crate::decoder::spec_decode_frames(
                    fs.map_values(|fr: Frame| crate::reader::frame_model(fr)),
                    old(self).spec_channels(),
                ) == old(self).spec_queued_samples(),
    {
        match self.flush() {
            Ok(u) => u,
            Err(e) => {
                return Err(e);
            },
        };
        let writer = Writer::new();
        let r = writer.write(
            self.sample_rate,
            self.channels,
            self.bit_depth,
            self.compression_level,
            &self.frames,
            metadata,
        );
        let bytes: Vec<u8> = match r {
            Ok(b) => b,
            Err(e) => {
                return Err(e);
            },
        };
        proof {
            assert(crate::writer::spec_file_bytes(
                crate::writer::spec_written_header(
                    old(self).spec_rate(),
                    old(self).spec_channels(),
                    old(self).spec_depth(),
                    old(self).spec_level(),
                    false,
                    0,
                    self.frames@,
                    metadata@,
                ),
                self.frames@,
                metadata@,
            ) == bytes@);
            assert(self.sample_buffer@.len() == 0);
            assert(crate::decoder::spec_decode_frames(
                self.frames@.map_values(|fr: Frame| crate::reader::frame_model(fr)),
                self.channels,
            ) =~= old(self).spec_queued_samples());
        }
        self.frames = Vec::new();
        self.pending = Vec::new();
        self.total_rows = 0;
        Ok(bytes)
    }

    pub closed spec fn spec_rate(&self) -> u32 {
        self.sample_rate
    }

    pub closed spec fn spec_channels(&self) -> u8 {
        self.channels
    }

    pub closed spec fn spec_depth(&self) -> u8 {
        self.bit_depth
    }

    pub closed spec fn spec_level(&self) -> u8 {
        self.compression_level
    }
}

} // verus!
