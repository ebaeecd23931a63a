//! The round trip between the writer and the reader: a file assembled from
//! parseable frames parses back to exactly those frames, its checksum
//! validates, and therefore a lossless encode followed by a decode returns
//! the samples that went in.

use vstd::prelude::*;
use vstd::bytes::*;

use crate::container::spec_crc_valid;
use crate::encoder::lemma_coeffs_bytes_len;
use crate::reader::{
    channel_model,
    frame_model,
    le32_at,
    FrameModel,
    spec_parse_channel,
    spec_parse_channels,
    spec_parse_file,
    spec_parse_frame,
    ChannelModel,
};
use crate::types::{
    ChannelData,
    Frame,
    FrameType,
    TocEntry,
    spec_frame_type_of,
    spec_residual_encoding_byte,
    spec_residual_encoding_of,
};
use crate::writer::{
    spec_channel_parseable,
    spec_frame_parseable,
    spec_channel_bytes,
    spec_channel_writable,
    spec_channels_bytes,
    spec_coeffs_bytes,
    spec_data_bytes,
    spec_frame_bytes,
    spec_frame_offset,
    spec_frame_writable,
    spec_frames_writable,
    spec_i32_le,
};

verus! {

/// An in-range signed coefficient survives the trip through its unsigned
/// wire form.
proof fn lemma_i32_u32_round(v: i32)
    by (bit_vector)
    ensures
        (v as u32) as i32 == v,
{
}

/// A serialized channel parses back to the channel's model.
proof fn lemma_parse_channel_of_written(
    b: Seq<u8>,
    lo: int,
    ch: ChannelData,
    ft: FrameType,
    samples: u32,
)
    requires
        spec_channel_parseable(ch, ft, samples),
        spec_channel_writable(ch, ft),
        0 <= lo,
        lo + spec_channel_bytes(ch, ft).len() <= b.len(),
        b.subrange(lo, lo + spec_channel_bytes(ch, ft).len()) == spec_channel_bytes(ch, ft),
    ensures
        spec_parse_channel(b, lo, lo + spec_channel_bytes(ch, ft).len(), ft, samples) == Ok::<
            ChannelModel,
            crate::types::FloError,
        >(channel_model(ch)),
{
    let cb = spec_channel_bytes(ch, ft);
    let hi = lo + cb.len();
    assert forall|i: int| 0 <= i < cb.len() implies b[lo + i] == cb[i] by {
        assert(b.subrange(lo, hi)[i] == cb[i]);
    }
    match ft {
        FrameType::Silence => {},
        FrameType::Reserved => {},
        FrameType::Raw => {
            assert(cb =~= ch.residuals@);
            let take = if 2 * samples <= hi - lo {
                2 * samples as int
            } else {
                hi - lo
            };
            assert(take == hi - lo);
            assert(b.subrange(lo, lo + take) =~= ch.residuals@);
            assert((spec_parse_channel(b, lo, hi, ft, samples)->Ok_0) =~~= channel_model(ch));
        },
        FrameType::Transform => {
            assert(cb =~= ch.residuals@);
            assert(b.subrange(lo, hi) =~= ch.residuals@);
            assert((spec_parse_channel(b, lo, hi, ft, samples)->Ok_0) =~~= channel_model(ch));
        },
        _ => {
            let o = ch.predictor_coeffs@.len() as int;
            lemma_coeffs_bytes_len(ch.predictor_coeffs@);
            let is_rice = ch.residual_encoding is Rice;
            // the layout positions inside the blob
            assert(cb[0] == o as u8);
            assert(b[lo] == o as u8);
            assert(b[lo] as int == o);
            assert(cb.len() == 1 + 4 * o + 2 + (if is_rice {
                1int
            } else {
                0int
            }) + ch.residuals@.len());
            assert(lo < hi);
            assert(lo + 1 + 4 * o + 2 <= hi);
            assert(b[lo + 1 + 4 * o] == ch.shift_bits) by {
                assert(cb[1 + 4 * o] == ch.shift_bits);
            }
            assert(b[lo + 2 + 4 * o] == spec_residual_encoding_byte(ch.residual_encoding)) by {
                assert(cb[2 + 4 * o] == spec_residual_encoding_byte(ch.residual_encoding));
            }
            assert(spec_residual_encoding_of(spec_residual_encoding_byte(ch.residual_encoding))
                == ch.residual_encoding);
            let enc = spec_residual_encoding_of(b[lo + 2 + 4 * o]);
            if is_rice {
                assert(cb[3 + 4 * o] == ch.rice_parameter);
                assert(b[lo + 3 + 4 * o] == ch.rice_parameter);
                assert(lo + 4 * o + 4 <= hi);
            }
            // the parsed coefficients are the written ones
            let parsed = spec_parse_channel(b, lo, hi, ft, samples)->Ok_0;
            assert forall|j: int| 0 <= j < o implies parsed.coeffs[j]
                == ch.predictor_coeffs@[j] by {
                lemma_coeffs_window(ch.predictor_coeffs@, j);
                assert(b.subrange(lo + 1 + 4 * j, lo + 1 + 4 * j + 4) =~= spec_i32_le(
                    ch.predictor_coeffs@[j],
                )) by {
                    assert forall|q: int| 0 <= q < 4 implies b[lo + 1 + 4 * j + q] == spec_i32_le(
                        ch.predictor_coeffs@[j],
                    )[q] by {
                        assert(cb[1 + 4 * j + q] == spec_coeffs_bytes(ch.predictor_coeffs@)[4 * j
                            + q]);
                        assert(spec_coeffs_bytes(ch.predictor_coeffs@).subrange(
                            4 * j,
                            4 * j + 4,
                        )[q] == spec_coeffs_bytes(ch.predictor_coeffs@)[4 * j + q]);
                    }
                }
                lemma_auto_spec_u32_to_from_le_bytes();
                lemma_i32_u32_round(ch.predictor_coeffs@[j]);
            }
            assert(parsed.coeffs =~= ch.predictor_coeffs@);
            // the residual window is the written residual bytes
            let res_lo = if is_rice {
                lo + 4 * o + 4
            } else {
                lo + 4 * o + 3
            };
            assert(b.subrange(res_lo, hi) =~= ch.residuals@) by {
                let base = if is_rice {
                    4 * o + 4
                } else {
                    4 * o + 3
                };
                assert forall|q: int| 0 <= q < ch.residuals@.len() implies b[res_lo + q]
                    == ch.residuals@[q] by {
                    assert(cb[base + q] == ch.residuals@[q]);
                }
            }
            assert(parsed =~~= channel_model(ch));
        },
    }
}

/// The channel blob list decomposes from the front: the first blob's length
/// prefix and body, then the remaining blobs.
proof fn lemma_channels_bytes_first(chs: Seq<ChannelData>, ft: FrameType)
    requires
        chs.len() > 0,
    ensures
        ({
            let body = spec_channel_bytes(chs[0], ft);
            spec_channels_bytes(chs, ft) == spec_u32_to_le_bytes(body.len() as u32) + body
                + spec_channels_bytes(chs.skip(1), ft)
        }),
    decreases chs.len(),
{
    let body = spec_channel_bytes(chs[0], ft);
    if chs.len() == 1 {
        assert(chs.drop_last() =~= Seq::<ChannelData>::empty());
        assert(chs.skip(1) =~= Seq::<ChannelData>::empty());
        assert(spec_channels_bytes(chs, ft) =~= spec_u32_to_le_bytes(body.len() as u32) + body
            + spec_channels_bytes(chs.skip(1), ft));
    } else {
        lemma_channels_bytes_first(chs.drop_last(), ft);
        assert(chs.drop_last().skip(1) =~= chs.skip(1).drop_last());
        assert(chs.skip(1).last() == chs.last());
        assert(chs.drop_last()[0] == chs[0]);
        assert(spec_channels_bytes(chs, ft) =~= spec_u32_to_le_bytes(body.len() as u32) + body
            + spec_channels_bytes(chs.skip(1), ft));
    }
}

/// A serialized channel list parses back to the channels' models.
proof fn lemma_parse_channels_of_written(
    b: Seq<u8>,
    pos: int,
    chs: Seq<ChannelData>,
    ft: FrameType,
    samples: u32,
)
    requires
        forall|j: int|
            0 <= j < chs.len() ==> spec_channel_parseable(#[trigger] chs[j], ft, samples)
                && spec_channel_writable(chs[j], ft),
        0 <= pos,
        pos + spec_channels_bytes(chs, ft).len() <= b.len(),
        b.subrange(pos, pos + spec_channels_bytes(chs, ft).len()) == spec_channels_bytes(chs, ft),
    ensures
        spec_parse_channels(
            b,
            pos,
            pos + spec_channels_bytes(chs, ft).len(),
            ft,
            samples,
            chs.len(),
        ) == Ok::<Seq<ChannelModel>, crate::types::FloError>(
            chs.map_values(|c: ChannelData| channel_model(c)),
        ),
    decreases chs.len(),
{
    let all = spec_channels_bytes(chs, ft);
    let frame_end = pos + all.len();
    assert forall|i: int| 0 <= i < all.len() implies b[pos + i] == all[i] by {
        assert(b.subrange(pos, frame_end)[i] == all[i]);
    }
    if chs.len() == 0 {
        assert(chs.map_values(|c: ChannelData| channel_model(c)) =~= Seq::<ChannelModel>::empty());
    } else {
        lemma_channels_bytes_first(chs, ft);
        let body = spec_channel_bytes(chs[0], ft);
        lemma_auto_spec_u32_to_from_le_bytes();
        assert(le32_at(b, pos) == body.len() as u32) by {
            assert(b.subrange(pos, pos + 4) =~= spec_u32_to_le_bytes(body.len() as u32));
        }
        let sz = le32_at(b, pos) as int;
        assert(sz == body.len());
        assert(pos + 4 + sz <= frame_end);
        assert(b.subrange(pos + 4, pos + 4 + sz) =~= body) by {
            assert forall|q: int| 0 <= q < sz implies b[pos + 4 + q] == body[q] by {
                assert(all[4 + q] == body[q]);
            }
        }
        lemma_parse_channel_of_written(b, pos + 4, chs[0], ft, samples);
        let rest_pos = pos + 4 + sz;
        let rest = spec_channels_bytes(chs.skip(1), ft);
        assert(b.subrange(rest_pos, rest_pos + rest.len()) =~= rest) by {
            assert forall|q: int| 0 <= q < rest.len() implies b[rest_pos + q] == rest[q] by {
                assert(all[4 + sz + q] == rest[q]);
            }
        }
        assert forall|j: int|
            0 <= j < chs.skip(1).len() implies spec_channel_parseable(
            #[trigger] chs.skip(1)[j],
            ft,
            samples,
        ) && spec_channel_writable(chs.skip(1)[j], ft) by {
            assert(chs.skip(1)[j] == chs[j + 1]);
        }
        lemma_parse_channels_of_written(b, rest_pos, chs.skip(1), ft, samples);
        assert(rest_pos + rest.len() == frame_end);
        assert(chs.map_values(|c: ChannelData| channel_model(c)) =~= seq![channel_model(chs[0])]
            + chs.skip(1).map_values(|c: ChannelData| channel_model(c)));
    }
}

/// Each coefficient's wire bytes sit at offset `4 j` of the coefficient
/// block.
proof fn lemma_coeffs_window(cs: Seq<i32>, j: int)
    requires
        0 <= j < cs.len(),
    ensures
        spec_coeffs_bytes(cs).len() == 4 * cs.len(),
        spec_coeffs_bytes(cs).subrange(4 * j, 4 * j + 4) == spec_i32_le(cs[j]),
    decreases cs.len(),
{
    lemma_coeffs_bytes_len(cs);
    lemma_auto_spec_u32_to_from_le_bytes();
    if j == cs.len() - 1 {
        lemma_coeffs_bytes_len(cs.drop_last());
        assert(spec_coeffs_bytes(cs).subrange(4 * j, 4 * j + 4) =~= spec_i32_le(cs[j]));
    } else {
        lemma_coeffs_window(cs.drop_last(), j);
        lemma_coeffs_bytes_len(cs.drop_last());
        assert(spec_coeffs_bytes(cs).subrange(4 * j, 4 * j + 4) =~= spec_coeffs_bytes(
            cs.drop_last(),
        ).subrange(4 * j, 4 * j + 4));
    }
}

/// A serialized frame parses back to its model.
proof fn lemma_parse_frame_of_written(b: Seq<u8>, lo: int, f: Frame, channels: u8)
    requires
        channels >= 1,
        spec_frame_parseable(f, channels),
        spec_frame_writable(f),
        0 <= lo,
        lo + spec_frame_bytes(f).len() <= b.len(),
        b.subrange(lo, lo + spec_frame_bytes(f).len()) == spec_frame_bytes(f),
    ensures
        spec_parse_frame(b, lo, spec_frame_bytes(f).len() as int, channels) == Ok::<
            crate::reader::FrameModel,
            crate::types::FloError,
        >(frame_model(f)),
{
    let fb = spec_frame_bytes(f);
    let size = fb.len() as int;
    let ft = spec_frame_type_of(f.frame_type);
    lemma_auto_spec_u32_to_from_le_bytes();
    assert(spec_u32_to_le_bytes(f.frame_samples).len() == 4);
    assert(size >= 6);
    assert forall|i: int| 0 <= i < size implies b[lo + i] == fb[i] by {
        assert(b.subrange(lo, lo + size)[i] == fb[i]);
    }
    assert(b[lo] == f.frame_type) by {
        assert(fb[0] == f.frame_type);
    }
    assert(le32_at(b, lo + 1) == f.frame_samples) by {
        assert(b.subrange(lo + 1, lo + 5) =~= spec_u32_to_le_bytes(f.frame_samples)) by {
            assert forall|q: int| 0 <= q < 4 implies b[lo + 1 + q] == spec_u32_to_le_bytes(
                f.frame_samples,
            )[q] by {
                assert(fb[1 + q] == spec_u32_to_le_bytes(f.frame_samples)[q]);
            }
        }
    }
    assert(b[lo + 5] == f.flags) by {
        assert(fb[5] == f.flags);
    }
    let cl = spec_channels_bytes(f.channels@, ft);
    assert(b.subrange(lo + 6, lo + 6 + cl.len()) =~= cl) by {
        assert forall|q: int| 0 <= q < cl.len() implies b[lo + 6 + q] == cl[q] by {
            assert(fb[6 + q] == cl[q]);
        }
    }
    lemma_parse_channels_of_written(b, lo + 6, f.channels@, ft, f.frame_samples);
    assert(frame_model(f) =~~= spec_parse_frame(b, lo, size, channels)->Ok_0);
}

/// The data chunk holds each frame's bytes at that frame's offset.
proof fn lemma_frame_window(frames: Seq<Frame>, i: int)
    requires
        0 <= i < frames.len(),
    ensures
        spec_frame_offset(frames, i) + spec_frame_bytes(frames[i]).len() == spec_frame_offset(
            frames,
            i + 1,
        ),
        spec_frame_offset(frames, i + 1) <= spec_data_bytes(frames).len(),
        spec_data_bytes(frames).subrange(
            spec_frame_offset(frames, i) as int,
            spec_frame_offset(frames, i + 1) as int,
        ) == spec_frame_bytes(frames[i]),
    decreases frames.len(),
{
    crate::writer::lemma_data_bytes_len_monotonic(frames, i);
    if i == frames.len() - 1 {
        assert(frames.take(i) =~= frames.drop_last());
        assert(frames.take(i + 1) =~= frames);
        assert(spec_data_bytes(frames).subrange(
            spec_frame_offset(frames, i) as int,
            spec_frame_offset(frames, i + 1) as int,
        ) =~= spec_frame_bytes(frames[i]));
    } else {
        lemma_frame_window(frames.drop_last(), i);
        assert(frames.drop_last().take(i) =~= frames.take(i));
        assert(frames.drop_last().take(i + 1) =~= frames.take(i + 1));
        assert(frames.drop_last()[i] == frames[i]);
        let dl = spec_data_bytes(frames.drop_last());
        let off0 = spec_frame_offset(frames, i) as int;
        let off1 = spec_frame_offset(frames, i + 1) as int;
        assert(off1 <= dl.len()) by {
            lemma_data_prefix_len(frames.drop_last(), i + 1);
        }
        assert(spec_data_bytes(frames).subrange(off0, off1) =~= dl.subrange(off0, off1));
    }
}

/// A prefix of the frames occupies no more bytes than all of them.
proof fn lemma_data_prefix_len(frames: Seq<Frame>, j: int)
    requires
        0 <= j <= frames.len(),
    ensures
        spec_frame_offset(frames, j) <= spec_data_bytes(frames).len(),
    decreases frames.len() - j,
{
    if j == frames.len() {
        assert(frames.take(j) =~= frames);
    } else {
        crate::writer::lemma_data_bytes_len_monotonic(frames, j);
        lemma_data_prefix_len(frames, j + 1);
    }
}

/// The data chunk is no longer than one maximal frame per entry.
proof fn lemma_data_len_bound(frames: Seq<Frame>)
    requires
        spec_frames_writable(frames),
    ensures
        spec_data_bytes(frames).len() <= frames.len() * 0x1_0000_0000,
    decreases frames.len(),
{
    if frames.len() == 0 {
        vstd::arithmetic::mul::lemma_mul_basics(0x1_0000_0000);
    } else {
        assert(spec_frames_writable(frames.drop_last())) by {
            assert forall|i: int| 0 <= i < frames.drop_last().len() implies spec_frame_writable(
                #[trigger] frames.drop_last()[i],
            ) by {
                assert(frames.drop_last()[i] == frames[i]);
            }
        }
        lemma_data_len_bound(frames.drop_last());
        assert(spec_frame_writable(frames.last()));
        assert((frames.len() - 1) * 0x1_0000_0000 + 0x1_0000_0000 == frames.len()
            * 0x1_0000_0000) by (nonlinear_arith);
    }
}

/// The 66 header bytes have their declared length.
proof fn lemma_header_bytes_len(h: crate::types::Header)
    ensures
        crate::writer::spec_header_bytes(h).len() == 66,
{
    lemma_auto_spec_u16_to_from_le_bytes();
    lemma_auto_spec_u32_to_from_le_bytes();
    lemma_auto_spec_u64_to_from_le_bytes();
}

/// The table-of-contents entries occupy twenty bytes each.
proof fn lemma_toc_entries_len(frames: Seq<Frame>, m: int)
    requires
        m >= 0,
    ensures
        crate::writer::spec_toc_entries(frames, m).len() == 20 * m,
    decreases m,
{
    lemma_auto_spec_u32_to_from_le_bytes();
    lemma_auto_spec_u64_to_from_le_bytes();
    if m > 0 {
        lemma_toc_entries_len(frames, m - 1);
    }
}

/// Entry `j` of the table of contents sits at offset `20 j` of the entry
/// block: its index, byte offset, size, and timestamp in order.
proof fn lemma_toc_entry_window(frames: Seq<Frame>, m: int, j: int)
    requires
        0 <= j < m,
    ensures
        crate::writer::spec_toc_entries(frames, m).subrange(20 * j, 20 * j + 20)
            == spec_u32_to_le_bytes(j as u32) + spec_u64_to_le_bytes(
            spec_frame_offset(frames, j) as u64,
        ) + spec_u32_to_le_bytes(spec_frame_bytes(frames[j]).len() as u32) + spec_u32_to_le_bytes(
            (j * 1000) as u32,
        ),
    decreases m,
{
    lemma_auto_spec_u32_to_from_le_bytes();
    lemma_auto_spec_u64_to_from_le_bytes();
    lemma_toc_entries_len(frames, m - 1);
    if j == m - 1 {
        assert(crate::writer::spec_toc_entries(frames, m).subrange(20 * j, 20 * j + 20)
            =~= spec_u32_to_le_bytes(j as u32) + spec_u64_to_le_bytes(
            spec_frame_offset(frames, j) as u64,
        ) + spec_u32_to_le_bytes(spec_frame_bytes(frames[j]).len() as u32) + spec_u32_to_le_bytes(
            (j * 1000) as u32,
        ));
    } else {
        lemma_toc_entry_window(frames, m - 1, j);
        assert(crate::writer::spec_toc_entries(frames, m).subrange(20 * j, 20 * j + 20)
            =~= crate::writer::spec_toc_entries(frames, m - 1).subrange(20 * j, 20 * j + 20));
    }
}

/// A file assembled by the writer from parseable frames parses back to
/// exactly its parts: the header it wrote, one table-of-contents entry per
/// frame, the models of the frames themselves, and the metadata — and its
/// stored checksum matches its DATA chunk, so `validate` holds.
#[verifier::rlimit(100)]
pub proof fn lemma_written_file_parses(
    sample_rate: u32,
    channels: u8,
    bit_depth: u8,
    compression_level: u8,
    lossy: bool,
    lossy_quality: u8,
    frames: Seq<Frame>,
    metadata: Seq<u8>,
)
    requires
        1 <= channels,
        metadata.len() < 0x1_0000_0000_0000_0000,
        lossy_quality <= 15,
        spec_frames_writable(frames),
        forall|i: int| 0 <= i < frames.len() ==> spec_frame_parseable(#[trigger] frames[i], channels),
    ensures
        ({
            let h = crate::writer::spec_written_header(
                sample_rate,
                channels,
                bit_depth,
                compression_level,
                lossy,
                lossy_quality,
                frames,
                metadata,
            );
            let bytes = crate::writer::spec_file_bytes(h, frames, metadata);
            &&& spec_parse_file(bytes) is Ok
            &&& (spec_parse_file(bytes)->Ok_0).header == h
            &&& (spec_parse_file(bytes)->Ok_0).frames == frames.map_values(
                |fr: Frame| frame_model(fr),
            )
            &&& (spec_parse_file(bytes)->Ok_0).metadata == metadata
            &&& spec_crc_valid(bytes)
        }),
{
    let h = crate::writer::spec_written_header(
        sample_rate,
        channels,
        bit_depth,
        compression_level,
        lossy,
        lossy_quality,
        frames,
        metadata,
    );
    let bytes = crate::writer::spec_file_bytes(h, frames, metadata);
    let hb = crate::writer::spec_header_bytes(h);
    let tocb = crate::writer::spec_toc_bytes(frames);
    let datab = spec_data_bytes(frames);
    let n = frames.len() as int;
    lemma_header_bytes_len(h);
    lemma_toc_entries_len(frames, n);
    lemma_auto_spec_u16_to_from_le_bytes();
    lemma_auto_spec_u32_to_from_le_bytes();
    lemma_auto_spec_u64_to_from_le_bytes();
    assert(tocb.len() == 4 + 20 * n);
    lemma_data_len_bound(frames);
    assert(datab.len() <= 100_000 * 0x1_0000_0000) by {
        vstd::arithmetic::mul::lemma_mul_inequality(frames.len() as int, 100_000, 0x1_0000_0000);
    }
    let toc_off: int = 70;
    let data_off = toc_off + tocb.len() as int;
    let meta_off = data_off + datab.len() as int;
    assert(bytes.len() == meta_off + metadata.len());
    // segment extraction
    assert(bytes.subrange(0, 4) =~= crate::types::spec_magic());
    assert forall|i: int| 0 <= i < 66 implies bytes[4 + i] == hb[i] by {}
    assert forall|i: int| 0 <= i < tocb.len() implies bytes[toc_off + i] == tocb[i] by {}
    assert forall|i: int| 0 <= i < datab.len() implies bytes[data_off + i] == datab[i] by {}
    assert(bytes.subrange(data_off, meta_off) =~= datab);
    assert(bytes.subrange(meta_off, meta_off + metadata.len()) =~= metadata);
    // the header parses field for field
    let hp = crate::reader::spec_parse_header(bytes);
    assert(hp == h) by {
        assert(bytes[4] == h.version_major && bytes[5] == h.version_minor) by {
            assert(hb[0] == h.version_major && hb[1] == h.version_minor);
        }
        assert(bytes.subrange(6, 8) =~= spec_u16_to_le_bytes(h.flags));
        assert(bytes.subrange(8, 12) =~= spec_u32_to_le_bytes(h.sample_rate));
        assert(bytes[12] == h.channels && bytes[13] == h.bit_depth) by {
            assert(hb[8] == h.channels && hb[9] == h.bit_depth);
        }
        assert(bytes.subrange(14, 22) =~= spec_u64_to_le_bytes(h.total_frames));
        assert(bytes[22] == h.compression_level) by {
            assert(hb[18] == h.compression_level);
        }
        assert(bytes.subrange(26, 30) =~= spec_u32_to_le_bytes(h.data_crc32));
        assert(bytes.subrange(30, 38) =~= spec_u64_to_le_bytes(h.header_size));
        assert(bytes.subrange(38, 46) =~= spec_u64_to_le_bytes(h.toc_size));
        assert(bytes.subrange(46, 54) =~= spec_u64_to_le_bytes(h.data_size));
        assert(bytes.subrange(54, 62) =~= spec_u64_to_le_bytes(h.extra_size));
        assert(bytes.subrange(62, 70) =~= spec_u64_to_le_bytes(h.meta_size));
    }
    // the top-level checks all pass
    assert(h.channels >= 1);
    assert(h.toc_size == 4 + 20 * n);
    assert(le32_at(bytes, 70) == n as u32) by {
        assert(bytes.subrange(70, 74) =~= spec_u32_to_le_bytes(frames.len() as u32)) by {
            assert forall|q: int| 0 <= q < 4 implies #[trigger] bytes[70 + q]
                == spec_u32_to_le_bytes(frames.len() as u32)[q] by {
                assert(tocb[q] == spec_u32_to_le_bytes(frames.len() as u32)[q]);
            }
        }
    }
    assert(h.data_size == datab.len());
    assert(h.meta_size == metadata.len());
    // the parsed table of contents is the written one
    let toc = crate::reader::spec_parse_toc(bytes, frames.len() as nat);
    assert forall|j: int| 0 <= j < n implies #[trigger] toc[j] == TocEntry {
        frame_index: j as u32,
        byte_offset: spec_frame_offset(frames, j) as u64,
        frame_size: spec_frame_bytes(frames[j]).len() as u32,
        timestamp_ms: (j * 1000) as u32,
    } by {
        lemma_toc_entry_window(frames, n, j);
        let eb = spec_u32_to_le_bytes(j as u32) + spec_u64_to_le_bytes(
            spec_frame_offset(frames, j) as u64,
        ) + spec_u32_to_le_bytes(spec_frame_bytes(frames[j]).len() as u32) + spec_u32_to_le_bytes(
            (j * 1000) as u32,
        );
        assert(20 * j + 20 <= 20 * n) by (nonlinear_arith)
            requires
                0 <= j < n,
        ;
        assert forall|q: int| 0 <= q < 20 implies #[trigger] bytes[74 + 20 * j + q] == eb[q] by {
            assert(tocb[4 + 20 * j + q] == crate::writer::spec_toc_entries(frames, n)[20 * j
                + q]);
            assert(crate::writer::spec_toc_entries(frames, n).subrange(20 * j, 20 * j + 20)[q]
                == crate::writer::spec_toc_entries(frames, n)[20 * j + q]);
        }
        assert(bytes.subrange(74 + 20 * j, 74 + 20 * j + 4) =~= spec_u32_to_le_bytes(j as u32))
            by {
            assert forall|q: int| 0 <= q < 4 implies #[trigger] bytes.subrange(74 + 20 * j, 74 + 20 * j + 4)[q]
                == spec_u32_to_le_bytes(j as u32)[q] by {
                assert(bytes[74 + 20 * j + q] == eb[q]);
                assert(eb[q] == spec_u32_to_le_bytes(j as u32)[q]);
            }
        }
        assert(bytes.subrange(78 + 20 * j, 78 + 20 * j + 8) =~= spec_u64_to_le_bytes(
            spec_frame_offset(frames, j) as u64,
        )) by {
            assert forall|q: int| 0 <= q < 8 implies #[trigger] bytes.subrange(78 + 20 * j, 78 + 20 * j + 8)[q]
                == spec_u64_to_le_bytes(spec_frame_offset(frames, j) as u64)[q] by {
                assert(bytes[74 + 20 * j + (4 + q)] == eb[4 + q]);
                assert(eb[4 + q] == spec_u64_to_le_bytes(spec_frame_offset(frames, j) as u64)[q]);
            }
        }
        assert(bytes.subrange(86 + 20 * j, 86 + 20 * j + 4) =~= spec_u32_to_le_bytes(
            spec_frame_bytes(frames[j]).len() as u32,
        )) by {
            assert forall|q: int| 0 <= q < 4 implies #[trigger] bytes.subrange(86 + 20 * j, 86 + 20 * j + 4)[q]
                == spec_u32_to_le_bytes(spec_frame_bytes(frames[j]).len() as u32)[q] by {
                assert(bytes[74 + 20 * j + (12 + q)] == eb[12 + q]);
                assert(eb[12 + q] == spec_u32_to_le_bytes(
                    spec_frame_bytes(frames[j]).len() as u32,
                )[q]);
            }
        }
        assert(bytes.subrange(90 + 20 * j, 90 + 20 * j + 4) =~= spec_u32_to_le_bytes(
            (j * 1000) as u32,
        )) by {
            assert forall|q: int| 0 <= q < 4 implies #[trigger] bytes.subrange(90 + 20 * j, 90 + 20 * j + 4)[q]
                == spec_u32_to_le_bytes((j * 1000) as u32)[q] by {
                assert(bytes[74 + 20 * j + (16 + q)] == eb[16 + q]);
                assert(eb[16 + q] == spec_u32_to_le_bytes((j * 1000) as u32)[q]);
            }
        }
        lemma_data_prefix_len(frames, j);
        assert((j * 1000) as u32 as int == j * 1000) by (nonlinear_arith)
            requires
                0 <= j <= 100_000,
        ;
    }
    // every frame parses out of its window
    assert forall|j: int| 0 <= j < frames.len() implies (#[trigger] toc[j]).byte_offset
        == spec_frame_offset(frames, j) && toc[j].frame_size == spec_frame_bytes(
        frames[j],
    ).len() by {
        lemma_data_prefix_len(frames, j);
    }
    lemma_frames_walk(bytes, frames, toc, data_off, datab.len() as int, channels, 0);
    assert((spec_parse_file(bytes)->Ok_0).frames =~= frames.map_values(
        |fr: Frame| frame_model(fr),
    ));
    assert((spec_parse_file(bytes)->Ok_0).metadata =~= metadata);
    assert(spec_crc_valid(bytes)) by {
        assert(bytes.subrange(70 + h.toc_size, 70 + h.toc_size + h.data_size) =~= datab);
    }
}

/// The frame walk over a written data chunk yields the frame models.
proof fn lemma_frames_walk(
    b: Seq<u8>,
    frames: Seq<Frame>,
    toc: Seq<TocEntry>,
    data_start: int,
    data_size: int,
    channels: u8,
    i: nat,
)
    requires
        channels >= 1,
        i <= frames.len(),
        toc.len() == frames.len(),
        data_size == spec_data_bytes(frames).len(),
        0 <= data_start,
        data_start + data_size <= b.len(),
        b.subrange(data_start, data_start + data_size) == spec_data_bytes(frames),
        forall|j: int| 0 <= j < frames.len() ==> spec_frame_writable(#[trigger] frames[j]),
        forall|j: int| 0 <= j < frames.len() ==> spec_frame_parseable(#[trigger] frames[j], channels),
        forall|j: int| 0 <= j < frames.len() ==> (#[trigger] toc[j]).byte_offset
            == spec_frame_offset(frames, j) && toc[j].frame_size == spec_frame_bytes(
            frames[j],
        ).len(),
    ensures
        crate::reader::spec_parse_frames(b, toc, data_start, data_size, channels, i) == Ok::<
            Seq<crate::reader::FrameModel>,
            crate::types::FloError,
        >(frames.skip(i as int).map_values(|fr: Frame| frame_model(fr))),
    decreases frames.len() - i,
{
    if i == frames.len() {
        assert(frames.skip(i as int).map_values(|fr: Frame| frame_model(fr)) =~= Seq::<
            crate::reader::FrameModel,
        >::empty());
    } else {
        let j = i as int;
        lemma_frame_window(frames, j);
        let off = spec_frame_offset(frames, j) as int;
        let size = spec_frame_bytes(frames[j]).len() as int;
        lemma_data_prefix_len(frames, j);
        assert(toc[j].byte_offset + toc[j].frame_size <= data_size);
        assert(b.subrange(data_start + off, data_start + off + size) =~= spec_frame_bytes(
            frames[j],
        )) by {
            assert forall|q: int| 0 <= q < size implies b[data_start + off + q]
                == spec_frame_bytes(frames[j])[q] by {
                assert(b.subrange(data_start, data_start + data_size)[off + q] == b[data_start
                    + off + q]);
                assert(spec_data_bytes(frames).subrange(off, off + size)[q] == spec_data_bytes(
                    frames,
                )[off + q]);
            }
        }
        lemma_parse_frame_of_written(b, data_start + off, frames[j], channels);
        lemma_frames_walk(b, frames, toc, data_start, data_size, channels, i + 1);
        assert(frames.skip(j).map_values(|fr: Frame| frame_model(fr)) =~= seq![
            frame_model(frames[j]),
        ] + frames.skip(j + 1).map_values(|fr: Frame| frame_model(fr)));
    }
}

/// The whole lossless story in one statement. A file the encoder produced
/// — any byte sequence equal to the written layout over frames that decode
/// to the input samples, as the encoder guarantees for every file it
/// returns — parses, carries a matching checksum (so `validate` answers
/// true), and decodes to exactly the samples that were encoded.
pub proof fn lemma_lossless_round_trip(
    sample_rate: u32,
    channels: u8,
    bit_depth: u8,
    compression_level: u8,
    frames: Seq<Frame>,
    metadata: Seq<u8>,
    samples: Seq<i32>,
)
    requires
        1 <= channels,
        metadata.len() < 0x1_0000_0000_0000_0000,
        spec_frames_writable(frames),
        forall|i: int| 0 <= i < frames.len() ==> spec_frame_parseable(#[trigger] frames[i], channels),
        crate::decoder::spec_decode_frames(
            frames.map_values(|fr: Frame| frame_model(fr)),
            channels,
        ) == samples,
    ensures
        ({
            let h = crate::writer::spec_written_header(
                sample_rate,
                channels,
                bit_depth,
                compression_level,
                false,
                0,
                frames,
                metadata,
            );
            let bytes = crate::writer::spec_file_bytes(h, frames, metadata);
            &&& spec_parse_file(bytes) is Ok
            &&& spec_crc_valid(bytes)
            &&& crate::decoder::spec_decode_frames(
                (spec_parse_file(bytes)->Ok_0).frames,
                (spec_parse_file(bytes)->Ok_0).header.channels,
            ) == samples
            &&& (spec_parse_file(bytes)->Ok_0).metadata == metadata
        }),
{
    lemma_written_file_parses(
        sample_rate,
        channels,
        bit_depth,
        compression_level,
        false,
        0,
        frames,
        metadata,
    );
}

} // verus!
