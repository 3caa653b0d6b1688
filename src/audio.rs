use vstd::prelude::*;
use crate::assets::{bool_byte, consumed, filled, fill_of, holds_at, lemma_consumed_chain, lemma_filled_of, lemma_holds_split, read_bool, zero_fill, U8Bool};
use crate::binio::{is_utf8, i32_bytes, i64_bytes, lemma_u32_bytes_injective, pad_len, u32_bytes, zeros, Endian, Reader, WriteExt};
use crate::error::Error;

verus! {

/// How an audio clip's samples are compressed; stored as a `u32` from 0 to 9.
#[derive(Debug, Clone, Copy, PartialEq, Eq, Structural)]
pub enum AudioCompressionFormat {
    PCM,
    Vorbis,
    ADPCM,
    MP3,
    PSMVAG,
    HEVAG,
    XMA,
    AAC,
    GCADPCM,
    ATRAC9,
}

pub open spec fn format_code(f: AudioCompressionFormat) -> u32 {
    match f {
        AudioCompressionFormat::PCM => 0,
        AudioCompressionFormat::Vorbis => 1,
        AudioCompressionFormat::ADPCM => 2,
        AudioCompressionFormat::MP3 => 3,
        AudioCompressionFormat::PSMVAG => 4,
        AudioCompressionFormat::HEVAG => 5,
        AudioCompressionFormat::XMA => 6,
        AudioCompressionFormat::AAC => 7,
        AudioCompressionFormat::GCADPCM => 8,
        AudioCompressionFormat::ATRAC9 => 9,
    }
}

impl AudioCompressionFormat {
    pub fn to_u32(&self) -> (r: u32)
        ensures
            r == format_code(*self),
    {
        match self {
            AudioCompressionFormat::PCM => 0,
            AudioCompressionFormat::Vorbis => 1,
            AudioCompressionFormat::ADPCM => 2,
            AudioCompressionFormat::MP3 => 3,
            AudioCompressionFormat::PSMVAG => 4,
            AudioCompressionFormat::HEVAG => 5,
            AudioCompressionFormat::XMA => 6,
            AudioCompressionFormat::AAC => 7,
            AudioCompressionFormat::GCADPCM => 8,
            AudioCompressionFormat::ATRAC9 => 9,
        }
    }

    pub fn from_u32(v: u32) -> (r: Option<AudioCompressionFormat>)
        ensures
            r is Some <==> v <= 9,
            r matches Some(f) ==> format_code(f) == v,
    {
        match v {
            0 => Some(AudioCompressionFormat::PCM),
            1 => Some(AudioCompressionFormat::Vorbis),
            2 => Some(AudioCompressionFormat::ADPCM),
            3 => Some(AudioCompressionFormat::MP3),
            4 => Some(AudioCompressionFormat::PSMVAG),
            5 => Some(AudioCompressionFormat::HEVAG),
            6 => Some(AudioCompressionFormat::XMA),
            7 => Some(AudioCompressionFormat::AAC),
            8 => Some(AudioCompressionFormat::GCADPCM),
            9 => Some(AudioCompressionFormat::ATRAC9),
            _ => None,
        }
    }
}

/// Where a clip's samples are: a file name, an offset and a size.
#[derive(Debug, Clone)]
pub struct StreamedResource {
    pub source: Vec<u8>,
    pub offset: i64,
    pub size: i64,
}

/// An AudioClip object. `length` holds the IEEE-754 bits of the clip's length in seconds.
#[derive(Debug, Clone)]
pub struct AudioClip {
    pub object_name: Vec<u8>,
    pub load_type: i32,
    pub channels: i32,
    pub frequency: i32,
    pub bits_per_sample: i32,
    pub length: u32,
    pub is_tracker_format: U8Bool,
    pub subsound_index: i32,
    pub preload_audio_data: U8Bool,
    pub load_in_background: U8Bool,
    pub legacy3d: U8Bool,
    pub resource: StreamedResource,
    pub compression_format: AudioCompressionFormat,
}

/// A length-prefixed byte string at `pos`, padded to a multiple of 4.
pub open spec fn padded_string(s: Seq<u8>, e: Endian, pos: int, fill: spec_fn(int) -> u8) -> Seq<u8> {
    let p = pos + 4 + s.len();
    u32_bytes(s.len() as u32, e) + s + filled(fill, p, pad_len(p, 4))
}

/// The clip's name and its leading numeric fields, at `pos`.
pub open spec fn head_bytes(
    name: Seq<u8>,
    nums: (i32, i32, i32, i32, u32),
    tracker: bool,
    e: Endian,
    pos: int,
    fill: spec_fn(int) -> u8,
) -> Seq<u8> {
    let a = padded_string(name, e, pos, fill);
    let p1 = pos + a.len();
    a + i32_bytes(nums.0, e) + i32_bytes(nums.1, e) + i32_bytes(nums.2, e) + i32_bytes(nums.3, e)
        + u32_bytes(nums.4, e) + seq![bool_byte(tracker, fill, p1 + 20)]
}

/// The aligned sub-sound index and loading flags, at `pos`.
pub open spec fn flags_bytes(
    subsound: i32,
    flags: (bool, bool, bool),
    e: Endian,
    pos: int,
    fill: spec_fn(int) -> u8,
) -> Seq<u8> {
    let g = filled(fill, pos, pad_len(pos, 4));
    let p3 = pos + g.len();
    let p4 = p3 + 7;
    g + i32_bytes(subsound, e) + seq![
        bool_byte(flags.0, fill, p3 + 4),
        bool_byte(flags.1, fill, p3 + 5),
        bool_byte(flags.2, fill, p3 + 6),
    ] + filled(fill, p4, pad_len(p4, 4))
}

/// The streamed resource and compression format, at `pos`.
pub open spec fn tail_bytes(
    source: Seq<u8>,
    offset: i64,
    size: i64,
    format: AudioCompressionFormat,
    e: Endian,
    pos: int,
    fill: spec_fn(int) -> u8,
) -> Seq<u8> {
    padded_string(source, e, pos, fill) + i64_bytes(offset, e) + i64_bytes(size, e) + u32_bytes(
        format_code(format),
        e,
    )
}

pub open spec fn clip_head(c: AudioClip, e: Endian, pos: int, fill: spec_fn(int) -> u8) -> Seq<u8> {
    head_bytes(
        c.object_name@,
        (c.load_type, c.channels, c.frequency, c.bits_per_sample, c.length),
        c.is_tracker_format.0,
        e,
        pos,
        fill,
    )
}

pub open spec fn clip_flags(c: AudioClip, e: Endian, pos: int, fill: spec_fn(int) -> u8) -> Seq<u8> {
    flags_bytes(
        c.subsound_index,
        (c.preload_audio_data.0, c.load_in_background.0, c.legacy3d.0),
        e,
        pos,
        fill,
    )
}

pub open spec fn clip_tail(c: AudioClip, e: Endian, pos: int, fill: spec_fn(int) -> u8) -> Seq<u8> {
    tail_bytes(
        c.resource.source@,
        c.resource.offset,
        c.resource.size,
        c.compression_format,
        e,
        pos,
        fill,
    )
}

/// The serialized clip at stream position `pos`.
pub open spec fn clip_bytes(c: AudioClip, e: Endian, pos: int, fill: spec_fn(int) -> u8) -> Seq<u8> {
    let h = clip_head(c, e, pos, fill);
    let f = clip_flags(c, e, pos + h.len(), fill);
    h + f + clip_tail(c, e, pos + h.len() + f.len(), fill)
}

/// The names in the clip fit their `u32` length prefixes.
pub open spec fn clip_fits(c: AudioClip) -> bool {
    c.object_name@.len() <= u32::MAX && c.resource.source@.len() <= u32::MAX
}

/// The clip's names fit their length prefixes and are UTF-8.
pub open spec fn clip_wf(c: AudioClip) -> bool {
    clip_fits(c) && vstd::utf8::valid_utf8(c.object_name@) && vstd::utf8::valid_utf8(c.resource.source@)
}

fn write_padded(out: &mut Vec<u8>, s: &Vec<u8>, e: Endian)
    requires
        s@.len() <= u32::MAX,
    ensures
        final(out)@ == old(out)@ + padded_string(s@, e, old(out)@.len() as int, zero_fill()),
{
    out.write_u32_order(&e, s.len() as u32);
    out.write_bytes(s.as_slice());
    let ghost p = out@.len() as int;
    out.align(4);
    assert(filled(zero_fill(), p, pad_len(p, 4)) =~= zeros(pad_len(p, 4)));
    assert(out@ =~= old(out)@ + padded_string(s@, e, old(out)@.len() as int, zero_fill()));
}

fn write_flag(out: &mut Vec<u8>, b: U8Bool)
    ensures
        final(out)@ == old(out)@.push(bool_byte(b.0, zero_fill(), old(out)@.len() as int)),
{
    out.write_u8(if b.0 { 1u8 } else { 0u8 });
}

fn align4(out: &mut Vec<u8>)
    ensures
        final(out)@ == old(out)@ + filled(zero_fill(), old(out)@.len() as int, pad_len(old(out)@.len() as int, 4)),
{
    out.align(4);
    assert(filled(zero_fill(), old(out)@.len() as int, pad_len(old(out)@.len() as int, 4)) =~= zeros(pad_len(old(out)@.len() as int, 4)));
}

fn write_head(c: &AudioClip, e: Endian, out: &mut Vec<u8>)
    requires
        clip_fits(*c),
    ensures
        final(out)@ == old(out)@ + clip_head(*c, e, old(out)@.len() as int, zero_fill()),
{
    write_padded(out, &c.object_name, e);
    out.write_u32_order(&e, c.load_type as u32);
    out.write_u32_order(&e, c.channels as u32);
    out.write_u32_order(&e, c.frequency as u32);
    out.write_u32_order(&e, c.bits_per_sample as u32);
    out.write_u32_order(&e, c.length);
    write_flag(out, c.is_tracker_format);
    assert(out@ =~= old(out)@ + clip_head(*c, e, old(out)@.len() as int, zero_fill()));
}

fn write_flags(c: &AudioClip, e: Endian, out: &mut Vec<u8>)
    ensures
        final(out)@ == old(out)@ + clip_flags(*c, e, old(out)@.len() as int, zero_fill()),
{
    align4(out);
    out.write_u32_order(&e, c.subsound_index as u32);
    write_flag(out, c.preload_audio_data);
    write_flag(out, c.load_in_background);
    write_flag(out, c.legacy3d);
    align4(out);
    assert(out@ =~= old(out)@ + clip_flags(*c, e, old(out)@.len() as int, zero_fill()));
}

fn write_tail(c: &AudioClip, e: Endian, out: &mut Vec<u8>)
    requires
        clip_fits(*c),
    ensures
        final(out)@ == old(out)@ + clip_tail(*c, e, old(out)@.len() as int, zero_fill()),
{
    write_padded(out, &c.resource.source, e);
    out.write_u64_order(&e, c.resource.offset as u64);
    out.write_u64_order(&e, c.resource.size as u64);
    out.write_u32_order(&e, c.compression_format.to_u32());
    assert(out@ =~= old(out)@ + clip_tail(*c, e, old(out)@.len() as int, zero_fill()));
}

impl AudioClip {
    /// Appends the clip in byte order `e`, with zero alignment bytes.
    pub fn write_to(&self, e: Endian, out: &mut Vec<u8>)
        requires
            clip_fits(*self),
        ensures
            final(out)@ == old(out)@ + clip_bytes(*self, e, old(out)@.len() as int, zero_fill()),
    {
        write_head(self, e, out);
        write_flags(self, e, out);
        write_tail(self, e, out);
        assert(out@ =~= old(out)@ + clip_bytes(*self, e, old(out)@.len() as int, zero_fill()));
    }
}


fn read_padded(r: &mut Reader, e: Endian, hint: Ghost<Seq<u8>>) -> (res: Result<Vec<u8>, Error>)
    requires
        old(r).wf(),
    ensures
        final(r).wf(),
        final(r).data@ == old(r).data@,
        res matches Ok(s) ==> s@.len() <= u32::MAX && vstd::utf8::valid_utf8(s@) && consumed(
            *final(r),
            *old(r),
            padded_string(s@, e, old(r).pos as int, fill_of(old(r).data@)),
        ),
        res matches Err(e) ==> e == Error::MalformedInput,
        hint@.len() <= u32::MAX && vstd::utf8::valid_utf8(hint@) && holds_at(old(r).data@, old(r).pos as int, padded_string(hint@, e, old(r).pos as int, zero_fill()))
            ==> (res is Ok && final(r).pos == old(r).pos + padded_string(hint@, e, old(r).pos as int, zero_fill()).len()),
{
    let ghost d = r.data@;
    let ghost r0 = *r;
    let ghost h = hint@;
    let ghost p0 = r0.pos as int;
    let ghost good = h.len() <= u32::MAX && vstd::utf8::valid_utf8(h) && holds_at(d, p0, padded_string(h, e, p0, zero_fill()));
    assert(good ==> holds_at(d, p0, u32_bytes(h.len() as u32, e))) by {
        if good {
            let q = p0 + 4 + h.len();
            assert(padded_string(h, e, p0, zero_fill()) =~= u32_bytes(h.len() as u32, e) + (h + filled(zero_fill(), q, pad_len(q, 4))));
            lemma_holds_split(d, p0, u32_bytes(h.len() as u32, e), h + filled(zero_fill(), q, pad_len(q, 4)));
        }
    }
    let n = r.read_u32_order(&e)?;
    assert(good ==> n == h.len()) by {
        if good {
            lemma_u32_bytes_injective(n, h.len() as u32, e);
        }
    }
    let ghost r1 = *r;
    let s = r.read_bytes(n as usize)?;
    assert(good ==> s@ == h) by {
        if good {
            let q = p0 + 4 + h.len();
            assert(padded_string(h, e, p0, zero_fill()) =~= u32_bytes(h.len() as u32, e) + (h + filled(zero_fill(), q, pad_len(q, 4))));
            lemma_holds_split(d, p0, u32_bytes(h.len() as u32, e), h + filled(zero_fill(), q, pad_len(q, 4)));
            lemma_holds_split(d, p0 + 4, h, filled(zero_fill(), q, pad_len(q, 4)));
        }
    }
    if !is_utf8(s.as_slice()) {
        return Err(Error::MalformedInput);
    }
    let ghost r2 = *r;
    r.align(4)?;
    proof {
        lemma_filled_of(d, r2.pos as int, pad_len(r2.pos as int, 4));
        lemma_consumed_chain(r0, r1, r2, u32_bytes(n, e), s@);
        lemma_consumed_chain(r0, r2, *r, u32_bytes(n, e) + s@, filled(fill_of(d), r2.pos as int, pad_len(r2.pos as int, 4)));
    }
    Ok(s)
}

fn read_align4(r: &mut Reader) -> (res: Result<(), Error>)
    requires
        old(r).wf(),
    ensures
        final(r).wf(),
        final(r).data@ == old(r).data@,
        res is Ok ==> consumed(
            *final(r),
            *old(r),
            filled(fill_of(old(r).data@), old(r).pos as int, pad_len(old(r).pos as int, 4)),
        ),
        res is Err ==> old(r).short(pad_len(old(r).pos as int, 4)),
{
    proof {
        if old(r).pos + pad_len(old(r).pos as int, 4) <= old(r).data@.len() {
            lemma_filled_of(old(r).data@, old(r).pos as int, pad_len(old(r).pos as int, 4));
        }
    }
    r.align(4)
}

#[verifier::rlimit(50)]
fn read_head(r: &mut Reader, e: Endian, hint: Ghost<(Seq<u8>, (i32, i32, i32, i32, u32), bool)>) -> (res: Result<
    (Vec<u8>, (i32, i32, i32, i32, u32), U8Bool),
    Error,
>)
    requires
        old(r).wf(),
    ensures
        final(r).wf(),
        final(r).data@ == old(r).data@,
        res matches Ok((name, nums, t)) ==> name@.len() <= u32::MAX && vstd::utf8::valid_utf8(name@) && consumed(
            *final(r),
            *old(r),
            head_bytes(name@, nums, t.0, e, old(r).pos as int, fill_of(old(r).data@)),
        ),
        hint@.0.len() <= u32::MAX && vstd::utf8::valid_utf8(hint@.0) && holds_at(old(r).data@, old(r).pos as int, head_bytes(hint@.0, hint@.1, hint@.2, e, old(r).pos as int, zero_fill()))
            ==> (res is Ok && final(r).pos == old(r).pos + head_bytes(hint@.0, hint@.1, hint@.2, e, old(r).pos as int, zero_fill()).len()),
{
    let ghost d = r.data@;
    let ghost r0 = *r;
    let ghost h = hint@;
    let ghost p0 = r0.pos as int;
    let ghost a = padded_string(h.0, e, p0, zero_fill());
    let ghost good = h.0.len() <= u32::MAX && vstd::utf8::valid_utf8(h.0) && holds_at(d, p0, head_bytes(h.0, h.1, h.2, e, p0, zero_fill()));
    assert(good ==> holds_at(d, p0, a)) by {
        if good {
            let rest = i32_bytes(h.1.0, e) + i32_bytes(h.1.1, e) + i32_bytes(h.1.2, e) + i32_bytes(h.1.3, e)
                + u32_bytes(h.1.4, e) + seq![bool_byte(h.2, zero_fill(), p0 + a.len() + 20)];
            assert(head_bytes(h.0, h.1, h.2, e, p0, zero_fill()) =~= a + rest);
            lemma_holds_split(d, p0, a, rest);
        }
    }
    let name = read_padded(r, e, Ghost(h.0))?;
    let ghost r1 = *r;
    let a = r.read_i32_order(&e)?;
    let ghost r2 = *r;
    let b = r.read_i32_order(&e)?;
    let ghost r3 = *r;
    let c = r.read_i32_order(&e)?;
    let ghost r4 = *r;
    let dd = r.read_i32_order(&e)?;
    let ghost r5 = *r;
    let l = r.read_u32_order(&e)?;
    let ghost r6 = *r;
    let t = read_bool(r)?;
    proof {
        let x0 = padded_string(name@, e, r0.pos as int, fill_of(d));
        let x1 = x0 + i32_bytes(a, e);
        let x2 = x1 + i32_bytes(b, e);
        let x3 = x2 + i32_bytes(c, e);
        let x4 = x3 + i32_bytes(dd, e);
        let x5 = x4 + u32_bytes(l, e);
        lemma_consumed_chain(r0, r1, r2, x0, i32_bytes(a, e));
        lemma_consumed_chain(r0, r2, r3, x1, i32_bytes(b, e));
        lemma_consumed_chain(r0, r3, r4, x2, i32_bytes(c, e));
        lemma_consumed_chain(r0, r4, r5, x3, i32_bytes(dd, e));
        lemma_consumed_chain(r0, r5, r6, x4, u32_bytes(l, e));
        lemma_consumed_chain(r0, r6, *r, x5, seq![bool_byte(t.0, fill_of(d), r6.pos as int)]);
    }
    Ok((name, (a, b, c, dd, l), t))
}

#[verifier::rlimit(50)]
fn read_flags(r: &mut Reader, e: Endian, hint: Ghost<(i32, (bool, bool, bool))>) -> (res: Result<(i32, (U8Bool, U8Bool, U8Bool)), Error>)
    requires
        old(r).wf(),
    ensures
        final(r).wf(),
        final(r).data@ == old(r).data@,
        res matches Ok((sub, f)) ==> consumed(
            *final(r),
            *old(r),
            flags_bytes(sub, (f.0.0, f.1.0, f.2.0), e, old(r).pos as int, fill_of(old(r).data@)),
        ),
        holds_at(old(r).data@, old(r).pos as int, flags_bytes(hint@.0, hint@.1, e, old(r).pos as int, zero_fill()))
            ==> (res is Ok && final(r).pos == old(r).pos + flags_bytes(hint@.0, hint@.1, e, old(r).pos as int, zero_fill()).len()),
{
    let ghost d = r.data@;
    let ghost r0 = *r;
    read_align4(r)?;
    let ghost r1 = *r;
    let sub = r.read_i32_order(&e)?;
    let ghost r2 = *r;
    let p = read_bool(r)?;
    let ghost r3 = *r;
    let l = read_bool(r)?;
    let ghost r4 = *r;
    let g = read_bool(r)?;
    let ghost r5 = *r;
    read_align4(r)?;
    proof {
        let fl = fill_of(d);
        let x0 = filled(fl, r0.pos as int, pad_len(r0.pos as int, 4));
        let x1 = x0 + i32_bytes(sub, e);
        let x2 = x1 + seq![bool_byte(p.0, fl, r2.pos as int)];
        let x3 = x2 + seq![bool_byte(l.0, fl, r3.pos as int)];
        let x4 = x3 + seq![bool_byte(g.0, fl, r4.pos as int)];
        lemma_consumed_chain(r0, r1, r2, x0, i32_bytes(sub, e));
        lemma_consumed_chain(r0, r2, r3, x1, seq![bool_byte(p.0, fl, r2.pos as int)]);
        lemma_consumed_chain(r0, r3, r4, x2, seq![bool_byte(l.0, fl, r3.pos as int)]);
        lemma_consumed_chain(r0, r4, r5, x3, seq![bool_byte(g.0, fl, r4.pos as int)]);
        lemma_consumed_chain(r0, r5, *r, x4, filled(fl, r5.pos as int, pad_len(r5.pos as int, 4)));
        assert(x4 + filled(fl, r5.pos as int, pad_len(r5.pos as int, 4)) =~= flags_bytes(sub, (p.0, l.0, g.0), e, r0.pos as int, fl));
    }
    Ok((sub, (p, l, g)))
}

#[verifier::rlimit(50)]
fn read_tail(r: &mut Reader, e: Endian, hint: Ghost<(Seq<u8>, i64, i64, AudioCompressionFormat)>) -> (res: Result<
    (Vec<u8>, i64, i64, AudioCompressionFormat),
    Error,
>)
    requires
        old(r).wf(),
    ensures
        final(r).wf(),
        final(r).data@ == old(r).data@,
        res matches Ok((src, off, size, f)) ==> src@.len() <= u32::MAX && vstd::utf8::valid_utf8(src@) && consumed(
            *final(r),
            *old(r),
            tail_bytes(src@, off, size, f, e, old(r).pos as int, fill_of(old(r).data@)),
        ),
        hint@.0.len() <= u32::MAX && vstd::utf8::valid_utf8(hint@.0) && holds_at(old(r).data@, old(r).pos as int, tail_bytes(hint@.0, hint@.1, hint@.2, hint@.3, e, old(r).pos as int, zero_fill()))
            ==> (res is Ok && final(r).pos == old(r).pos + tail_bytes(hint@.0, hint@.1, hint@.2, hint@.3, e, old(r).pos as int, zero_fill()).len()),
{
    let ghost d = r.data@;
    let ghost r0 = *r;
    let ghost h = hint@;
    let ghost p0 = r0.pos as int;
    let ghost a = padded_string(h.0, e, p0, zero_fill());
    let ghost good = h.0.len() <= u32::MAX && vstd::utf8::valid_utf8(h.0) && holds_at(d, p0, tail_bytes(h.0, h.1, h.2, h.3, e, p0, zero_fill()));
    assert(good ==> holds_at(d, p0, a) && holds_at(d, p0 + a.len() + 16, u32_bytes(format_code(h.3), e))) by {
        if good {
            let mid = i64_bytes(h.1, e) + i64_bytes(h.2, e);
            assert(tail_bytes(h.0, h.1, h.2, h.3, e, p0, zero_fill()) =~= a + mid + u32_bytes(format_code(h.3), e));
            lemma_holds_split(d, p0, a + mid, u32_bytes(format_code(h.3), e));
            lemma_holds_split(d, p0, a, mid);
        }
    }
    let source = read_padded(r, e, Ghost(h.0))?;
    let ghost r1 = *r;
    let offset = r.read_i64_order(&e)?;
    let ghost r2 = *r;
    let size = r.read_i64_order(&e)?;
    let ghost r3 = *r;
    let code = r.read_u32_order(&e)?;
    assert(good ==> code == format_code(h.3)) by {
        if good {
            lemma_u32_bytes_injective(code, format_code(h.3), e);
        }
    }
    let f = match AudioCompressionFormat::from_u32(code) {
        Some(f) => f,
        None => {
            return Err(Error::MalformedInput);
        },
    };
    proof {
        let x0 = padded_string(source@, e, r0.pos as int, fill_of(d));
        lemma_consumed_chain(r0, r1, r2, x0, i64_bytes(offset, e));
        lemma_consumed_chain(r0, r2, r3, x0 + i64_bytes(offset, e), i64_bytes(size, e));
        lemma_consumed_chain(r0, r3, *r, x0 + i64_bytes(offset, e) + i64_bytes(size, e), u32_bytes(code, e));
    }
    Ok((source, offset, size, f))
}

impl AudioClip {
    /// Reads a clip at the reader's position in byte order `e`.
    pub fn read_from(r: &mut Reader, e: Endian) -> (res: Result<AudioClip, Error>)
        requires
            old(r).wf(),
        ensures
            final(r).wf(),
            final(r).data@ == old(r).data@,
            res matches Ok(c) ==> clip_wf(c) && consumed(
                *final(r),
                *old(r),
                clip_bytes(c, e, old(r).pos as int, fill_of(old(r).data@)),
            ),
            (exists|c: AudioClip| clip_wf(c) && holds_at(old(r).data@, old(r).pos as int, #[trigger] clip_bytes(c, e, old(r).pos as int, zero_fill())))
                ==> res is Ok,
    {
        let ghost d = r.data@;
        let ghost r0 = *r;
        let ghost p0 = r0.pos as int;
        let ghost good = exists|c: AudioClip| clip_wf(c) && holds_at(d, p0, #[trigger] clip_bytes(c, e, p0, zero_fill()));
        let ghost k = choose|c: AudioClip| clip_wf(c) && holds_at(d, p0, #[trigger] clip_bytes(c, e, p0, zero_fill()));
        let ghost hb = clip_head(k, e, p0, zero_fill());
        let ghost fb = clip_flags(k, e, p0 + hb.len(), zero_fill());
        let ghost tb = clip_tail(k, e, p0 + hb.len() + fb.len(), zero_fill());
        assert(good ==> holds_at(d, p0, hb) && holds_at(d, p0 + hb.len(), fb) && holds_at(d, p0 + hb.len() + fb.len(), tb)) by {
            if good {
                lemma_holds_split(d, p0, hb + fb, tb);
                lemma_holds_split(d, p0, hb, fb);
            }
        }
        let (object_name, nums, is_tracker_format) = read_head(r, e, Ghost((k.object_name@, (k.load_type, k.channels, k.frequency, k.bits_per_sample, k.length), k.is_tracker_format.0)))?;
        let ghost r1 = *r;
        let (subsound_index, flags) = read_flags(r, e, Ghost((k.subsound_index, (k.preload_audio_data.0, k.load_in_background.0, k.legacy3d.0))))?;
        let ghost r2 = *r;
        let (source, offset, size, compression_format) = read_tail(r, e, Ghost((k.resource.source@, k.resource.offset, k.resource.size, k.compression_format)))?;
        let c = AudioClip {
            object_name,
            load_type: nums.0,
            channels: nums.1,
            frequency: nums.2,
            bits_per_sample: nums.3,
            length: nums.4,
            is_tracker_format,
            subsound_index,
            preload_audio_data: flags.0,
            load_in_background: flags.1,
            legacy3d: flags.2,
            resource: StreamedResource { source, offset, size },
            compression_format,
        };
        proof {
            let h = clip_head(c, e, r0.pos as int, fill_of(d));
            let f = clip_flags(c, e, r1.pos as int, fill_of(d));
            lemma_consumed_chain(r0, r1, r2, h, f);
            lemma_consumed_chain(r0, r2, *r, h + f, clip_tail(c, e, r2.pos as int, fill_of(d)));
        }
        Ok(c)
    }
}

} // verus!
