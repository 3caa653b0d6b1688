use vstd::prelude::*;
use vstd::arithmetic::div_mod::*;
use crate::assets::{
    counts_fit, ser_content_with, ser_header, written_file, zero_fill, AssetsFile, AssetsFileContent,
    AssetsFileHeader, ObjectInfo, ResolvedObjectInfo, HEADER_LEN,
};
use crate::audio::{clip_bytes, clip_fits, clip_wf, AudioClip, AudioCompressionFormat, StreamedResource};
use crate::assets::U8Bool;
use crate::binio::{lemma_u32_bytes_injective, pad_len, u32_bytes, zeros, Endian, Reader, WriteExt};
use crate::error::Error;

verus! {

/// Bytes in front of the Art.dat payload inside its object: a `u32` name length, the seven
/// bytes `Art.dat`, one byte of alignment and a `u32` payload length.
pub const ART_OBJECT_HEADER_LEN: u64 = 4 + 7 + 1 + 4;

/// Size of an object's data before alignment: the repacked Art.dat gets its new size.
pub open spec fn unpadded_size(o: ObjectInfo, art_path_id: i64, new_art_len: int) -> int {
    if o.path_id == art_path_id {
        new_art_len + ART_OBJECT_HEADER_LEN
    } else {
        o.byte_size as int
    }
}

/// Where the data of the first `objs.len()` objects ends once each object is moved to the
/// next multiple of 8.
pub open spec fn layout_end(objs: Seq<ObjectInfo>, art_path_id: i64, new_art_len: int) -> int
    decreases objs.len(),
{
    if objs.len() == 0 {
        0
    } else {
        let s = layout_end(objs.drop_last(), art_path_id, new_art_len);
        let e = s + unpadded_size(objs.last(), art_path_id, new_art_len);
        e + pad_len(e, 8)
    }
}

/// Start of object `i` in the new layout.
pub open spec fn new_start(objs: Seq<ObjectInfo>, i: int, art_path_id: i64, new_art_len: int) -> int {
    layout_end(objs.take(i), art_path_id, new_art_len)
}

/// Size of object `i` in the new layout: its data, and the bytes that reach the next
/// multiple of 4 (the rest of the way to a multiple of 8 belongs to no object).
pub open spec fn new_size(objs: Seq<ObjectInfo>, i: int, art_path_id: i64, new_art_len: int) -> int {
    let s = new_start(objs, i, art_path_id, new_art_len);
    let u = unpadded_size(objs[i], art_path_id, new_art_len);
    u + pad_len(s + u, 8) % 4
}

/// Every new start and size fits its field.
pub open spec fn layout_fits(objs: Seq<ObjectInfo>, art_path_id: i64, new_art_len: int) -> bool {
    &&& layout_end(objs, art_path_id, new_art_len) <= u64::MAX
    &&& forall|i: int|
        0 <= i < objs.len() ==> #[trigger] new_size(objs, i, art_path_id, new_art_len) <= u32::MAX
}

/// The object table of `objs` moved to the new layout.
pub open spec fn relaid_objects(objs: Seq<ObjectInfo>, art_path_id: i64, new_art_len: int) -> Seq<
    ObjectInfo,
> {
    Seq::new(
        objs.len(),
        |i: int|
            ObjectInfo {
                path_id: objs[i].path_id,
                byte_start: new_start(objs, i, art_path_id, new_art_len) as u64,
                byte_size: new_size(objs, i, art_path_id, new_art_len) as u32,
                type_id: objs[i].type_id,
            },
    )
}

/// `v` is the object table of `objs` moved to the new layout.
pub open spec fn is_relaid(
    v: Seq<ObjectInfo>,
    objs: Seq<ObjectInfo>,
    art_path_id: i64,
    new_art_len: int,
) -> bool {
    &&& v.len() == objs.len()
    &&& forall|i: int|
        0 <= i < objs.len() ==> {
            &&& (#[trigger] v[i]).path_id == objs[i].path_id
            &&& v[i].type_id == objs[i].type_id
            &&& v[i].byte_start == new_start(objs, i, art_path_id, new_art_len)
            &&& v[i].byte_size == new_size(objs, i, art_path_id, new_art_len)
        }
}

proof fn lemma_layout_monotone(objs: Seq<ObjectInfo>, art_path_id: i64, new_art_len: int, i: int)
    requires
        0 <= i <= objs.len(),
        new_art_len >= 0,
    ensures
        layout_end(objs.take(i), art_path_id, new_art_len) <= layout_end(
            objs,
            art_path_id,
            new_art_len,
        ),
        layout_end(objs, art_path_id, new_art_len) % 8 == 0,
        layout_end(objs, art_path_id, new_art_len) >= 0,
    decreases objs.len(),
{
    if objs.len() == 0 {
        assert(objs.take(i) =~= objs);
    } else {
        let p = objs.drop_last();
        let s = layout_end(p, art_path_id, new_art_len);
        let e = s + unpadded_size(objs.last(), art_path_id, new_art_len);
        lemma_layout_monotone(p, art_path_id, new_art_len, if i < objs.len() { i } else { 0 });
        lemma_pad8(e);
        if i == objs.len() {
            assert(objs.take(i) =~= objs);
        } else {
            assert(objs.take(i) =~= p.take(i));
        }
    }
}

proof fn lemma_unfit_at(objs: Seq<ObjectInfo>, i: int, art_path_id: i64, new_art_len: int)
    requires
        0 <= i < objs.len(),
        new_art_len >= 0,
        layout_end(objs.take(i + 1), art_path_id, new_art_len) > u64::MAX || new_size(
            objs,
            i,
            art_path_id,
            new_art_len,
        ) > u32::MAX,
    ensures
        !layout_fits(objs, art_path_id, new_art_len),
{
    lemma_layout_monotone(objs, art_path_id, new_art_len, i + 1);
}

proof fn lemma_pad8(e: int)
    requires
        e >= 0,
    ensures
        (e + pad_len(e, 8)) % 8 == 0,
        0 <= pad_len(e, 8) < 8,
{
    lemma_mod_pos_bound(e, 8);
    if e % 8 != 0 {
        lemma_fundamental_div_mod(e, 8);
        assert(e + (8 - e % 8) == 8 * (e / 8 + 1));
        lemma_mod_multiples_basic(e / 8 + 1, 8);
    }
}

/// Moves every object to the next multiple of 8 after the previous one, in table order,
/// giving the Art.dat object (`art_path_id`) the size of its new payload; returns the new
/// table and where the last object's slot ends.
pub fn relayout_objects(objs: &Vec<ObjectInfo>, art_path_id: i64, new_art_len: u64) -> (res: Result<
    (Vec<ObjectInfo>, u64),
    Error,
>)
    ensures
        res is Ok <==> layout_fits(objs@, art_path_id, new_art_len as int),
        res matches Ok((v, end)) ==> {
            &&& is_relaid(v@, objs@, art_path_id, new_art_len as int)
            &&& v@ == relaid_objects(objs@, art_path_id, new_art_len as int)
            &&& end == layout_end(objs@, art_path_id, new_art_len as int)
            &&& forall|i: int| 0 <= i < v@.len() ==> (#[trigger] v@[i]).byte_start % 8 == 0
        },
        res matches Err(e) ==> e == Error::IntegrityError,
{
    let ghost art_len = new_art_len as int;
    let mut v: Vec<ObjectInfo> = Vec::new();
    let mut cur: u64 = 0;
    let mut i: usize = 0;
    while i < objs.len()
        invariant
            art_len == new_art_len as int,
            i <= objs@.len(),
            cur == layout_end(objs@.take(i as int), art_path_id, art_len),
            is_relaid(v@, objs@.take(i as int), art_path_id, art_len),
            forall|j: int| 0 <= j < i ==> new_size(objs@, j, art_path_id, art_len) <= u32::MAX,
            forall|j: int|
                0 <= j < i ==> (#[trigger] v@[j]).byte_start == new_start(
                    objs@,
                    j,
                    art_path_id,
                    art_len,
                ) && v@[j].byte_size == new_size(objs@, j, art_path_id, art_len),
            forall|j: int| 0 <= j < i ==> (#[trigger] v@[j]).byte_start % 8 == 0,
        decreases objs@.len() - i,
    {
        let obj = objs[i];
        let ghost pre = objs@.take(i as int);
        let ghost pre1 = objs@.take(i + 1);
        proof {
            assert(pre1.drop_last() =~= pre);
            assert(pre1.last() == obj);
            assert(pre1.take(i as int) =~= pre);
            lemma_layout_monotone(pre, art_path_id, art_len, 0);
        }
        let size: u64 = if obj.path_id == art_path_id {
            if new_art_len > u64::MAX - ART_OBJECT_HEADER_LEN {
                proof {
                    lemma_pad8(cur + art_len + ART_OBJECT_HEADER_LEN);
                    lemma_unfit_at(objs@, i as int, art_path_id, art_len);
                }
                return Err(Error::IntegrityError);
            }
            new_art_len + ART_OBJECT_HEADER_LEN
        } else {
            obj.byte_size as u64
        };
        if size > u64::MAX - cur {
            proof {
                lemma_pad8(cur + size);
                lemma_unfit_at(objs@, i as int, art_path_id, art_len);
            }
            return Err(Error::IntegrityError);
        }
        let end = cur + size;
        let rem = end % 8;
        let pad = if rem != 0 { 8 - rem } else { 0 };
        if pad > u64::MAX - end {
            proof {
                lemma_unfit_at(objs@, i as int, art_path_id, art_len);
            }
            return Err(Error::IntegrityError);
        }
        let full = size + pad % 4;
        if full > u32::MAX as u64 {
            proof {
                lemma_unfit_at(objs@, i as int, art_path_id, art_len);
            }
            return Err(Error::IntegrityError);
        }
        let ghost before = v@;
        v.push(ObjectInfo {
            path_id: obj.path_id,
            byte_start: cur,
            byte_size: full as u32,
            type_id: obj.type_id,
        });
        proof {
            lemma_pad8(end as int);
            assert(new_start(objs@, i as int, art_path_id, art_len) == cur);
            assert(new_size(objs@, i as int, art_path_id, art_len) == full);
        }
        cur = end + pad;
        i = i + 1;
        proof {
            assert forall|j: int| 0 <= j < i implies (#[trigger] v@[j]).path_id == objs@.take(
                i as int,
            )[j].path_id && v@[j].type_id == objs@.take(i as int)[j].type_id && v@[j].byte_start
                == new_start(objs@.take(i as int), j, art_path_id, art_len) && v@[j].byte_size
                == new_size(objs@.take(i as int), j, art_path_id, art_len) by {
                assert(objs@.take(i as int).take(j) =~= objs@.take(j));
            }
        }
    }
    proof {
        assert(objs@.take(objs@.len() as int) =~= objs@);
        lemma_layout_monotone(objs@, art_path_id, art_len, objs@.len() as int);
        assert(v@ =~= relaid_objects(objs@, art_path_id, art_len));
    }
    Ok((v, cur))
}


/// The object name of the Art.dat TextAsset.
pub open spec fn art_name() -> Seq<u8> {
    seq![0x41u8, 0x72u8, 0x74u8, 0x2eu8, 0x64u8, 0x61u8, 0x74u8]
}

/// The data of the Art.dat object written at stream position `pos`: its name as an aligned
/// string, the payload length and the payload.
pub open spec fn art_object_bytes(e: Endian, pos: int, art: Seq<u8>) -> Seq<u8> {
    u32_bytes(7, e) + art_name() + zeros(pad_len(pos + 11, 4)) + u32_bytes(art.len() as u32, e)
        + art
}

/// An audio clip that takes the place of the object `path_id`.
#[derive(Debug, Clone)]
pub struct Replacement {
    pub path_id: i64,
    pub clip: AudioClip,
}

/// The clip of the first replacement for `id`, if any.
pub open spec fn replacement_for(repl: Seq<Replacement>, id: i64) -> Option<AudioClip>
    decreases repl.len(),
{
    if repl.len() == 0 {
        None
    } else if repl[0].path_id == id {
        Some(repl[0].clip)
    } else {
        replacement_for(repl.drop_first(), id)
    }
}

/// The header of the repacked file: the original one with the new file size.
pub open spec fn repacked_header(h: AssetsFileHeader, end: int) -> AssetsFileHeader {
    AssetsFileHeader {
        version: h.version,
        metadata_size: h.metadata_size,
        file_size: (h.offset_first_file + end) as u64,
        offset_first_file: h.offset_first_file,
        endianness: h.endianness,
    }
}

/// The header and content section of the repacked file.
pub open spec fn metadata_bytes(f: AssetsFile, new_objs: Seq<ObjectInfo>, end: int) -> Seq<u8> {
    ser_header(repacked_header(f.header, end), zero_fill()) + ser_content_with(
        f.content,
        new_objs,
        f.header.endianness,
        HEADER_LEN as int,
        zero_fill(),
    )
}

/// The data written for one object at position `pos`: the new Art.dat, a replacement, or
/// the object's bytes in the original file (as many as its new size).
pub open spec fn object_bytes(
    original: Seq<u8>,
    off: int,
    old_o: ObjectInfo,
    new_o: ObjectInfo,
    art_path_id: i64,
    e: Endian,
    pos: int,
    art: Seq<u8>,
    repl: Seq<Replacement>,
) -> Seq<u8> {
    if new_o.path_id == art_path_id {
        art_object_bytes(e, pos, art)
    } else {
        match replacement_for(repl, new_o.path_id) {
            Some(c) => clip_bytes(c, e, pos, zero_fill()),
            None => original.subrange(
                off + old_o.byte_start,
                off + old_o.byte_start + old_o.byte_size,
            ),
        }
    }
}

/// The object's bytes can be had: it is written anew, or its range lies in the original.
pub open spec fn source_in_range(
    original: Seq<u8>,
    off: int,
    old_o: ObjectInfo,
    new_o: ObjectInfo,
    art_path_id: i64,
    repl: Seq<Replacement>,
) -> bool {
    new_o.path_id == art_path_id || match replacement_for(repl, new_o.path_id) {
        Some(c) => clip_fits(c),
        None => off + old_o.byte_start + old_o.byte_size <= original.len(),
    }
}

/// The repacked image up to the end of the data of object `k - 1`: metadata, zero bytes up
/// to `offset_first_file`, then each object's data at `offset_first_file + byte_start`
/// after zero bytes.
pub open spec fn image_upto(
    original: Seq<u8>,
    f: AssetsFile,
    new_objs: Seq<ObjectInfo>,
    end: int,
    art_path_id: i64,
    art: Seq<u8>,
    repl: Seq<Replacement>,
    k: nat,
) -> Seq<u8>
    decreases k,
{
    let off = f.header.offset_first_file as int;
    if k == 0 {
        let m = metadata_bytes(f, new_objs, end);
        m + zeros(off - m.len())
    } else {
        let p = image_upto(original, f, new_objs, end, art_path_id, art, repl, (k - 1) as nat);
        let q = p + zeros(off + new_objs[k - 1].byte_start - p.len());
        q + object_bytes(
            original,
            off,
            f.content.objects@[k - 1],
            new_objs[k - 1],
            art_path_id,
            f.header.endianness,
            q.len() as int,
            art,
            repl,
        )
    }
}

/// No section of the image up to object `k - 1` runs past the start of the next one, and
/// every copied object lies inside the original.
pub open spec fn image_fits(
    original: Seq<u8>,
    f: AssetsFile,
    new_objs: Seq<ObjectInfo>,
    end: int,
    art_path_id: i64,
    art: Seq<u8>,
    repl: Seq<Replacement>,
    k: nat,
) -> bool
    decreases k,
{
    let off = f.header.offset_first_file as int;
    if k == 0 {
        metadata_bytes(f, new_objs, end).len() <= off
    } else {
        &&& image_fits(original, f, new_objs, end, art_path_id, art, repl, (k - 1) as nat)
        &&& image_upto(original, f, new_objs, end, art_path_id, art, repl, (k - 1) as nat).len()
            <= off + new_objs[k - 1].byte_start
        &&& source_in_range(
            original,
            off,
            f.content.objects@[k - 1],
            new_objs[k - 1],
            art_path_id,
            repl,
        )
    }
}

proof fn lemma_fits_prefix(
    original: Seq<u8>,
    f: AssetsFile,
    new_objs: Seq<ObjectInfo>,
    end: int,
    art_path_id: i64,
    art: Seq<u8>,
    repl: Seq<Replacement>,
    k: nat,
    j: nat,
)
    requires
        j <= k,
        image_fits(original, f, new_objs, end, art_path_id, art, repl, k),
    ensures
        image_fits(original, f, new_objs, end, art_path_id, art, repl, j),
    decreases k,
{
    if j < k {
        lemma_fits_prefix(original, f, new_objs, end, art_path_id, art, repl, (k - 1) as nat, j);
    }
}

fn find_replacement(repl: &Vec<Replacement>, id: i64) -> (r: Option<usize>)
    ensures
        match r {
            Some(j) => j < repl@.len() && replacement_for(repl@, id) == Some(repl@[j as int].clip),
            None => replacement_for(repl@, id) is None,
        },
{
    let mut i: usize = 0;
    assert(repl@.skip(0) =~= repl@);
    while i < repl.len()
        invariant
            i <= repl@.len(),
            replacement_for(repl@, id) == replacement_for(repl@.skip(i as int), id),
        decreases repl@.len() - i,
    {
        assert(repl@.skip(i as int).drop_first() =~= repl@.skip(i + 1));
        if repl[i].path_id == id {
            return Some(i);
        }
        i = i + 1;
    }
    None
}

fn push_zeros(out: &mut Vec<u8>, n: u64)
    ensures
        final(out)@ == old(out)@ + zeros(n as int),
{
    let mut i: u64 = 0;
    while i < n
        invariant
            i <= n,
            out@ == old(out)@ + zeros(i as int),
        decreases n - i,
    {
        out.push(0u8);
        i = i + 1;
        assert(out@ =~= old(out)@ + zeros(i as int));
    }
}

fn write_art_object(out: &mut Vec<u8>, e: Endian, art: &[u8])
    requires
        art@.len() <= u32::MAX,
    ensures
        final(out)@ == old(out)@ + art_object_bytes(e, old(out)@.len() as int, art@),
{
    let name: Vec<u8> = vec![0x41u8, 0x72u8, 0x74u8, 0x2eu8, 0x64u8, 0x61u8, 0x74u8];
    out.write_u32_order(&e, 7);
    out.write_bytes(name.as_slice());
    out.align(4);
    out.write_u32_order(&e, art.len() as u32);
    out.write_bytes(art);
    assert(name@ =~= art_name());
    assert(out@ =~= old(out)@ + art_object_bytes(e, old(out)@.len() as int, art@));
}


/// Appends the data of one object; `false` when its bytes lie outside the original.
fn write_object_data(
    out: &mut Vec<u8>,
    original: &[u8],
    off: u64,
    old_o: ObjectInfo,
    o: ObjectInfo,
    art_path_id: i64,
    e: Endian,
    new_art: &[u8],
    replacements: &Vec<Replacement>,
) -> (ok: bool)
    requires
        o.path_id == art_path_id ==> new_art@.len() <= u32::MAX,
    ensures
        ok == source_in_range(original@, off as int, old_o, o, art_path_id, replacements@),
        ok ==> final(out)@ == old(out)@ + object_bytes(
            original@,
            off as int,
            old_o,
            o,
            art_path_id,
            e,
            old(out)@.len() as int,
            new_art@,
            replacements@,
        ),
{
    if o.path_id == art_path_id {
        write_art_object(out, e, new_art);
        true
    } else {
        match find_replacement(replacements, o.path_id) {
            Some(j) => {
                let c = &replacements[j].clip;
                if c.object_name.len() > 0xffff_ffff || c.resource.source.len() > 0xffff_ffff {
                    return false;
                }
                c.write_to(e, out);
                true
            },
            None => {
                let len = original.len() as u64;
                if old_o.byte_start > u64::MAX - off || off + old_o.byte_start > len || old_o.byte_size as u64
                    > len - (off + old_o.byte_start) {
                    return false;
                }
                let src = (off + old_o.byte_start) as usize;
                let size = old_o.byte_size as usize;
                let piece = vstd::slice::slice_subrange(original, src, src + size);
                out.write_bytes(piece);
                true
            },
        }
    }
}

/// Writes the zero gap and the data of object `i`; `false` when the image up to it does
/// not fit.
#[verifier::rlimit(50)]
fn emit_object(
    out: &mut Vec<u8>,
    original: &[u8],
    objs: &Vec<ObjectInfo>,
    old_objs: &Vec<ObjectInfo>,
    i: usize,
    end: u64,
    off: u64,
    e: Endian,
    art_path_id: i64,
    new_art: &[u8],
    replacements: &Vec<Replacement>,
    f0: Ghost<AssetsFile>,
) -> (ok: bool)
    requires
        off == f0@.header.offset_first_file,
        e == f0@.header.endianness,
        old_objs@ == f0@.content.objects@,
        objs@ == relaid_objects(old_objs@, art_path_id, new_art@.len() as int),
        end == layout_end(old_objs@, art_path_id, new_art@.len() as int),
        f0@.header.offset_first_file + end <= u64::MAX,
        layout_fits(old_objs@, art_path_id, new_art@.len() as int),
        i < objs@.len(),
        old(out)@ == image_upto(original@, f0@, objs@, end as int, art_path_id, new_art@, replacements@, i as nat),
        image_fits(original@, f0@, objs@, end as int, art_path_id, new_art@, replacements@, i as nat),
    ensures
        ok == image_fits(original@, f0@, objs@, end as int, art_path_id, new_art@, replacements@, (i + 1) as nat),
        ok ==> final(out)@ == image_upto(original@, f0@, objs@, end as int, art_path_id, new_art@, replacements@, (i + 1) as nat),
{
    let ghost objs0 = old_objs@;
    let ghost art_len = new_art@.len() as int;
    let o = objs[i];
    let old_o = old_objs[i];
    proof {
        lemma_layout_monotone(objs0, art_path_id, art_len, i as int);
        lemma_layout_monotone(objs0.take(i as int), art_path_id, art_len, 0);
        assert(new_size(objs0, i as int, art_path_id, art_len) <= u32::MAX);
        lemma_pad8(new_start(objs0, i as int, art_path_id, art_len) + unpadded_size(objs0[i as int], art_path_id, art_len));
    }
    let target = off + o.byte_start;
    if out.len() as u64 > target {
        return false;
    }
    let gap = target - out.len() as u64;
    push_zeros(out, gap);
    assert(new_art@.len() + ART_OBJECT_HEADER_LEN <= new_size(objs0, i as int, art_path_id, art_len) || o.path_id != art_path_id);
    write_object_data(out, original, off, old_o, o, art_path_id, e, new_art, replacements)
}

/// Every offset and size of the repacked file fits its field and every section fits before
/// the next.
pub open spec fn repack_fits(
    original: Seq<u8>,
    f: AssetsFile,
    art_path_id: i64,
    art: Seq<u8>,
    repl: Seq<Replacement>,
) -> bool {
    let objs = f.content.objects@;
    let end = layout_end(objs, art_path_id, art.len() as int);
    &&& layout_fits(objs, art_path_id, art.len() as int)
    &&& f.header.offset_first_file + end <= u64::MAX
    &&& image_fits(
        original,
        f,
        relaid_objects(objs, art_path_id, art.len() as int),
        end,
        art_path_id,
        art,
        repl,
        objs.len(),
    )
    &&& image_upto(
        original,
        f,
        relaid_objects(objs, art_path_id, art.len() as int),
        end,
        art_path_id,
        art,
        repl,
        objs.len(),
    ).len() <= f.header.offset_first_file + end
}

/// The repacked AssetsFile: the image of every object, then zero bytes up to the declared
/// file size.
pub open spec fn repacked_image(
    original: Seq<u8>,
    f: AssetsFile,
    art_path_id: i64,
    art: Seq<u8>,
    repl: Seq<Replacement>,
) -> Seq<u8> {
    let objs = f.content.objects@;
    let end = layout_end(objs, art_path_id, art.len() as int);
    let p = image_upto(
        original,
        f,
        relaid_objects(objs, art_path_id, art.len() as int),
        end,
        art_path_id,
        art,
        repl,
        objs.len(),
    );
    p + zeros(f.header.offset_first_file + end - p.len())
}

/// Builds the repacked AssetsFile from the original file's bytes and its parsed metadata:
/// objects move to the new layout, the Art.dat object (`art_path_id`) gets `new_art`, an
/// object with a replacement gets its data, and every other object keeps its original bytes.
#[verifier::rlimit(50)]
pub fn repack_image(
    original: &[u8],
    file: AssetsFile,
    art_path_id: i64,
    new_art: &[u8],
    replacements: &Vec<Replacement>,
) -> (res: Result<Vec<u8>, Error>)
    requires
        counts_fit(file.content),
    ensures
        res is Ok <==> repack_fits(original@, file, art_path_id, new_art@, replacements@),
        res matches Ok(v) ==> v@ == repacked_image(
            original@,
            file,
            art_path_id,
            new_art@,
            replacements@,
        ),
        res matches Ok(v) ==> v@.len() == repacked_header(
            file.header,
            layout_end(file.content.objects@, art_path_id, new_art@.len() as int),
        ).file_size,
        res matches Err(e) ==> e == Error::IntegrityError,
{
    let ghost f0 = file;
    let ghost art_len = new_art@.len() as int;
    let ghost objs0 = file.content.objects@;
    let (objs, end) = relayout_objects(&file.content.objects, art_path_id, new_art.len() as u64)?;
    let ghost no = objs@;
    let off = file.header.offset_first_file;
    if end > u64::MAX - off {
        return Err(Error::IntegrityError);
    }
    let e = file.header.endianness;
    let AssetsFile { header, content } = file;
    let AssetsFileContent {
        unity_version,
        target,
        enable_type_tree,
        types,
        objects: old_objs,
        script_types,
        externals,
        ref_types,
        user_information,
    } = content;
    let new_header = AssetsFileHeader {
        version: header.version,
        metadata_size: header.metadata_size,
        file_size: off + end,
        offset_first_file: off,
        endianness: e,
    };
    let new_file = AssetsFile {
        header: new_header,
        content: AssetsFileContent {
            unity_version,
            target,
            enable_type_tree,
            types,
            objects: objs,
            script_types,
            externals,
            ref_types,
            user_information,
        },
    };
    let mut out = new_file.write();
    assert(out@ == metadata_bytes(f0, no, end as int));
    let n = new_file.content.objects.len();
    if out.len() as u64 > off {
        proof {
            if image_fits(original@, f0, no, end as int, art_path_id, new_art@, replacements@, n as nat) {
                    lemma_fits_prefix(original@, f0, no, end as int, art_path_id, new_art@, replacements@, n as nat, 0);
                }
        }
        return Err(Error::IntegrityError);
    }
    let fill = off - out.len() as u64;
    push_zeros(&mut out, fill);
    let mut i: usize = 0;
    while i < n
        invariant
            off == f0.header.offset_first_file,
            e == f0.header.endianness,
            old_objs@ == objs0,
            objs0 == f0.content.objects@,
            new_file.content.objects@ == no,
            no == relaid_objects(objs0, art_path_id, art_len),
            n == no.len(),
            n == objs0.len(),
            end == layout_end(objs0, art_path_id, art_len),
            off + end <= u64::MAX,
            layout_fits(objs0, art_path_id, art_len),
            art_len == new_art@.len(),
            i <= n,
            f0 == file,
            out@ == image_upto(original@, f0, no, end as int, art_path_id, new_art@, replacements@, i as nat),
            image_fits(original@, f0, no, end as int, art_path_id, new_art@, replacements@, i as nat),
        decreases n - i,
    {
        let ok = emit_object(&mut out, original, &new_file.content.objects, &old_objs, i, end, off, e, art_path_id, new_art, replacements, Ghost(f0));
        if !ok {
            proof {
                if image_fits(original@, f0, no, end as int, art_path_id, new_art@, replacements@, n as nat) {
                    lemma_fits_prefix(original@, f0, no, end as int, art_path_id, new_art@, replacements@, n as nat, (i + 1) as nat);
                }
            }
            return Err(Error::IntegrityError);
        }
        i = i + 1;
    }
    if out.len() as u64 > off + end {
        return Err(Error::IntegrityError);
    }
    let tail = off + end - out.len() as u64;
    push_zeros(&mut out, tail);
    Ok(out)
}


/// The bytes at `pos` hold the Art.dat object: the aligned name `Art.dat`, a payload length
/// and a payload equal to `art` (alignment bytes are not looked at).
pub open spec fn art_object_at(data: Seq<u8>, pos: int, e: Endian, art: Seq<u8>) -> bool {
    let p2 = pos + 11 + pad_len(pos + 11, 4);
    &&& 0 <= pos
    &&& p2 + 4 + art.len() <= data.len()
    &&& data.subrange(pos, pos + 4) == u32_bytes(7, e)
    &&& data.subrange(pos + 4, pos + 11) == art_name()
    &&& data.subrange(p2, p2 + 4) == u32_bytes(art.len() as u32, e)
    &&& data.subrange(p2 + 4, p2 + 4 + art.len()) == art
}

/// The name at `pos` is the aligned string `Art.dat`.
pub open spec fn art_name_at(data: Seq<u8>, pos: int, e: Endian) -> bool {
    &&& 0 <= pos
    &&& pos + 11 <= data.len()
    &&& data.subrange(pos, pos + 4) == u32_bytes(7, e)
    &&& data.subrange(pos + 4, pos + 11) == art_name()
}

/// Some payload follows the Art.dat name at `pos` inside `data`.
pub open spec fn has_art_payload(data: Seq<u8>, pos: int, e: Endian) -> bool {
    exists|art: Seq<u8>| #[trigger] art_object_at(data, pos, e, art)
}

/// Object `j` is a TextAsset named `Art.dat`.
pub open spec fn is_art_object(data: Seq<u8>, file: AssetsFile, j: int) -> bool {
    let q = file.content.objects@[j];
    &&& 0 <= q.type_id < file.content.types@.len()
    &&& file.content.types@[q.type_id as int].class_id == crate::assets::TEXT_ASSET_CLASS
    &&& art_name_at(data, file.header.offset_first_file + q.byte_start, file.header.endianness)
}

proof fn lemma_no_art_payload(data: Seq<u8>, pos: int, e: Endian, p2: int, after_name: int)
    requires
        0 <= pos,
        after_name == pos + 11,
        p2 == pos + 11 + pad_len(pos + 11, 4),
        p2 + 4 > data.len(),
    ensures
        !has_art_payload(data, pos, e),
{
}

/// Finds the first TextAsset object (in table order) named `Art.dat` and returns its path id
/// and its payload. It fails only when an object's type id is out of range, when there is no
/// such object, or when the first one's payload runs past the end of `data`.
pub fn locate_art(data: &[u8], file: &AssetsFile) -> (res: Result<(i64, Vec<u8>), Error>)
    ensures
        res is Err ==> {
            ||| exists|j: int| 0 <= j < file.content.objects@.len() && !(0 <= (#[trigger] file.content.objects@[j]).type_id < file.content.types@.len())
            ||| forall|j: int| 0 <= j < file.content.objects@.len() ==> !is_art_object(data@, *file, j)
            ||| exists|j: int| 0 <= j < file.content.objects@.len() && #[trigger] is_art_object(data@, *file, j) && (forall|k: int| 0 <= k < j ==> !is_art_object(data@, *file, k)) && !has_art_payload(data@, file.header.offset_first_file + file.content.objects@[j].byte_start, file.header.endianness)
        },
        res matches Ok((id, art)) ==> exists|i: int|
            0 <= i < file.content.objects@.len() && {
                let o = #[trigger] file.content.objects@[i];
                &&& o.path_id == id
                &&& 0 <= o.type_id < file.content.types@.len()
                &&& file.content.types@[o.type_id as int].class_id == crate::assets::TEXT_ASSET_CLASS
                &&& art_object_at(
                    data@,
                    file.header.offset_first_file + o.byte_start,
                    file.header.endianness,
                    art@,
                )
                &&& forall|j: int|
                    0 <= j < i ==> !({
                        let q = #[trigger] file.content.objects@[j];
                        &&& 0 <= q.type_id < file.content.types@.len()
                        &&& file.content.types@[q.type_id as int].class_id
                            == crate::assets::TEXT_ASSET_CLASS
                        &&& art_name_at(
                            data@,
                            file.header.offset_first_file + q.byte_start,
                            file.header.endianness,
                        )
                    })
            },
{
    let objs = file.resolve_object_classes()?;
    let e = file.header.endianness;
    let off = file.header.offset_first_file;
    let dl = data.len();
    let mut r = Reader::new(vstd::slice::slice_to_vec(data));
    let name: Vec<u8> = vec![0x41u8, 0x72u8, 0x74u8, 0x2eu8, 0x64u8, 0x61u8, 0x74u8];
    let mut i: usize = 0;
    while i < objs.len()
        invariant
            i <= objs@.len(),
            objs@.len() == file.content.objects@.len(),
            forall|j: int|
                0 <= j < objs@.len() ==> {
                    let o = file.content.objects@[j];
                    #[trigger] objs@[j] == ResolvedObjectInfo {
                        path_id: o.path_id,
                        byte_start: o.byte_start,
                        byte_size: o.byte_size,
                        class_id: file.content.types@[o.type_id as int].class_id,
                    }
                },
            forall|j: int| 0 <= j < objs@.len() ==> 0 <= (#[trigger] file.content.objects@[j]).type_id < file.content.types@.len(),
            r.data@ == data@,
            dl == data@.len(),
            r.wf(),
            name@ == art_name(),
            e == file.header.endianness,
            off == file.header.offset_first_file,
            forall|j: int|
                0 <= j < i ==> !({
                    let q = #[trigger] file.content.objects@[j];
                    &&& 0 <= q.type_id < file.content.types@.len()
                    &&& file.content.types@[q.type_id as int].class_id
                        == crate::assets::TEXT_ASSET_CLASS
                    &&& art_name_at(data@, off + q.byte_start, e)
                }),
        decreases objs@.len() - i,
    {
        let o = objs[i];
        let ghost q = file.content.objects@[i as int];
        if o.class_id == crate::assets::TEXT_ASSET_CLASS && o.byte_start <= u64::MAX - off && off
            + o.byte_start <= data.len() as u64 {
            let pos = (off + o.byte_start) as usize;
            r.pos = pos;
            let ghost r0 = r;
            let mut found = false;
            match r.read_u32_order(&e) {
                Ok(len) => {
                    if len == 7 {
                        match r.read_bytes(7) {
                            Ok(b) => {
                                found = b[0] == name[0] && b[1] == name[1] && b[2] == name[2]
                                    && b[3] == name[3] && b[4] == name[4] && b[5] == name[5] && b[6]
                                    == name[6];
                                assert(found <==> b@ =~= art_name());
                                proof {
                                    assert(data@.subrange(pos as int, pos + 11) =~= data@.subrange(pos as int, pos + 4) + data@.subrange(pos + 4, pos + 11));
                                }
                            },
                            Err(_) => {},
                        }
                    } else {
                        proof {
                            if art_name_at(data@, off + q.byte_start, e) {
                                lemma_u32_bytes_injective(len, 7, e);
                            }
                        }
                    }
                },
                Err(_) => {},
            }
            if found {
                assert(is_art_object(data@, *file, i as int));
                assert(forall|k: int| 0 <= k < i ==> !is_art_object(data@, *file, k));
                let ghost r1 = r;
                let ghost p2 = pos + 11 + pad_len(pos + 11, 4);
                if r.align(4).is_err() {
                    proof {
                        lemma_no_art_payload(data@, pos as int, e, p2, r1.pos as int);
                    }
                    return Err(Error::MalformedInput);
                }
                let len = match r.read_u32_order(&e) {
                    Ok(v) => v,
                    Err(_) => {
                        proof {
                            lemma_no_art_payload(data@, pos as int, e, p2, r1.pos as int);
                        }
                        return Err(Error::MalformedInput);
                    },
                };
                let ghost r3 = r;
                let art = match r.read_bytes(len as usize) {
                    Ok(a) => a,
                    Err(_) => {
                        proof {
                            if has_art_payload(data@, pos as int, e) {
                                let art = choose|art: Seq<u8>| art_object_at(data@, pos as int, e, art);
                                lemma_u32_bytes_injective(len, art.len() as u32, e);
                            }
                        }
                        return Err(Error::MalformedInput);
                    },
                };
                proof {
                    assert(art_object_at(data@, off + o.byte_start, e, art@));
                }
                return Ok((o.path_id, art));
            }
            assert(!art_name_at(data@, off + q.byte_start, e));
        } else {
            assert(objs@[i as int].class_id == file.content.types@[q.type_id as int].class_id);
            assert(data@.len() <= u64::MAX);
            assert(!(file.content.types@[q.type_id as int].class_id == crate::assets::TEXT_ASSET_CLASS
                && art_name_at(data@, off + q.byte_start, e)));
        }
        i = i + 1;
    }
    Err(Error::MalformedInput)
}


/// Class id of object `j`, when its type id is in range.
pub open spec fn class_of(file: AssetsFile, j: int) -> i32 {
    file.content.types@[file.content.objects@[j].type_id as int].class_id
}

/// Where object `j`'s data starts in the file.
pub open spec fn data_pos(file: AssetsFile, j: int) -> int {
    file.header.offset_first_file + file.content.objects@[j].byte_start
}

/// `c` is the clip written at `pos` in `data`.
pub open spec fn clip_at(data: Seq<u8>, pos: int, e: Endian, c: AudioClip) -> bool {
    crate::assets::holds_at(data, pos, clip_bytes(c, e, pos, crate::assets::fill_of(data)))
}

/// No well-formed clip is written at `pos`.
pub open spec fn no_clip_at(data: Seq<u8>, pos: int, e: Endian) -> bool {
    !(exists|c: AudioClip|
        clip_wf(c) && crate::assets::holds_at(data, pos, #[trigger] clip_bytes(c, e, pos, zero_fill())))
}

fn read_clip_of(r: &mut Reader, file: &AssetsFile, i: usize, byte_start: u64) -> (res: Result<AudioClip, Error>)
    requires
        old(r).wf(),
        i < file.content.objects@.len(),
        byte_start == file.content.objects@[i as int].byte_start,
    ensures
        final(r).wf(),
        final(r).data@ == old(r).data@,
        res matches Ok(c) ==> clip_wf(c) && clip_at(old(r).data@, data_pos(*file, i as int), file.header.endianness, c),
        res is Err ==> no_clip_at(old(r).data@, data_pos(*file, i as int), file.header.endianness),
{
    let off = file.header.offset_first_file;
    let e = file.header.endianness;
    let dl = r.data.len();
    if byte_start > u64::MAX - off || off + byte_start > dl as u64 {
        proof {
            assert forall|c: AudioClip| !(clip_wf(c) && crate::assets::holds_at(
                r.data@,
                data_pos(*file, i as int),
                #[trigger] clip_bytes(c, e, data_pos(*file, i as int), zero_fill()),
            )) by {}
        }
        return Err(Error::MalformedInput);
    }
    r.pos = (off + byte_start) as usize;
    AudioClip::read_from(r, e)
}

/// Reads every AudioClip object of the file: entry `j` of the result is the clip of object
/// `j`, or `None` when object `j` is not an AudioClip.
pub fn read_audio_clips(data: &[u8], file: &AssetsFile) -> (res: Result<Vec<Option<AudioClip>>, Error>)
    ensures
        res matches Ok(v) ==> v@.len() == file.content.objects@.len() && forall|j: int|
            0 <= j < v@.len() ==> (#[trigger] v@[j] is Some <==> class_of(*file, j)
                == crate::assets::AUDIO_CLIP_CLASS) && (v@[j] matches Some(c) ==> clip_wf(c) && clip_at(
                data@,
                data_pos(*file, j),
                file.header.endianness,
                c,
            )),
        res is Err ==> {
            ||| exists|j: int|
                0 <= j < file.content.objects@.len() && !(0 <= (
                #[trigger] file.content.objects@[j]).type_id < file.content.types@.len())
            ||| exists|j: int|
                0 <= j < file.content.objects@.len() && #[trigger] class_of(*file, j)
                    == crate::assets::AUDIO_CLIP_CLASS && no_clip_at(data@, data_pos(*file, j), file.header.endianness)
        },
{
    let objects = &file.content.objects;
    let types = &file.content.types;
    let mut r = Reader::new(vstd::slice::slice_to_vec(data));
    let mut out: Vec<Option<AudioClip>> = Vec::new();
    let mut i: usize = 0;
    while i < objects.len()
        invariant
            objects@ == file.content.objects@,
            types@ == file.content.types@,
            i <= objects@.len(),
            out@.len() == i,
            r.data@ == data@,
            r.wf(),
            forall|j: int|
                0 <= j < i ==> (#[trigger] out@[j] is Some <==> class_of(*file, j)
                    == crate::assets::AUDIO_CLIP_CLASS) && (out@[j] matches Some(c) ==> clip_wf(c)
                    && clip_at(data@, data_pos(*file, j), file.header.endianness, c)),
        decreases objects@.len() - i,
    {
        let o = objects[i];
        if o.type_id < 0 || o.type_id as usize >= types.len() {
            assert(!(0 <= file.content.objects@[i as int].type_id < file.content.types@.len()));
            return Err(Error::MalformedInput);
        }
        let class_id = types[o.type_id as usize].class_id;
        assert(class_id == class_of(*file, i as int));
        if class_id == crate::assets::AUDIO_CLIP_CLASS {
            let clip = match read_clip_of(&mut r, file, i, o.byte_start) {
                Ok(c) => c,
                Err(err) => {
                    assert(class_of(*file, i as int) == crate::assets::AUDIO_CLIP_CLASS);
                    return Err(err);
                },
            };
            out.push(Some(clip));
        } else {
            out.push(None);
        }
        i = i + 1;
    }
    Ok(out)
}

/// Name of the resource file that patched audio clips point at.
pub open spec fn modded_resource_name() -> Seq<u8> {
    seq![
        0x6du8, 0x6fu8, 0x64u8, 0x64u8, 0x65u8, 0x64u8, 0x5fu8, 0x61u8, 0x73u8, 0x73u8, 0x65u8,
        0x74u8, 0x73u8, 0x30u8, 0x2eu8, 0x72u8, 0x65u8, 0x73u8, 0x6fu8, 0x75u8, 0x72u8, 0x63u8,
        0x65u8,
    ]
}

/// The new settings of one audio clip, found by its object name.
#[derive(Debug, Clone)]
pub struct ClipPatch {
    pub object_name: Vec<u8>,
    pub load_type: i32,
    pub channels: i32,
    pub frequency: i32,
    pub bits_per_sample: i32,
    pub length: u32,
    pub is_tracker_format: bool,
    pub subsound_index: i32,
    pub preload_audio_data: bool,
    pub load_in_background: bool,
    pub legacy3d: bool,
    pub compression_format: AudioCompressionFormat,
}

/// Index of the first clip named `name`.
pub open spec fn clip_named(clips: Seq<Replacement>, name: Seq<u8>) -> Option<int> {
    if exists|i: int| 0 <= i < clips.len() && (#[trigger] clips[i]).clip.object_name@ == name {
        Some(choose|i: int| 0 <= i < clips.len() && (#[trigger] clips[i]).clip.object_name@ == name && forall|j: int| 0 <= j < i ==> (#[trigger] clips[j]).clip.object_name@ != name)
    } else {
        None
    }
}

/// Finds the first clip with the given object name.
pub fn find_clip(clips: &Vec<Replacement>, name: &Vec<u8>) -> (r: Option<usize>)
    ensures
        match r {
            Some(i) => i < clips@.len() && clips@[i as int].clip.object_name@ == name@ && forall|j: int|
                0 <= j < i ==> (#[trigger] clips@[j]).clip.object_name@ != name@,
            None => forall|j: int| 0 <= j < clips@.len() ==> (#[trigger] clips@[j]).clip.object_name@ != name@,
        },
{
    let mut i: usize = 0;
    while i < clips.len()
        invariant
            i <= clips@.len(),
            forall|j: int| 0 <= j < i ==> (#[trigger] clips@[j]).clip.object_name@ != name@,
        decreases clips@.len() - i,
    {
        if bytes_equal(&clips[i].clip.object_name, name) {
            return Some(i);
        }
        i = i + 1;
    }
    None
}

fn bytes_equal(a: &Vec<u8>, b: &Vec<u8>) -> (r: bool)
    ensures
        r <==> a@ == b@,
{
    if a.len() != b.len() {
        return false;
    }
    let mut i: usize = 0;
    while i < a.len()
        invariant
            a@.len() == b@.len(),
            i <= a@.len(),
            forall|j: int| 0 <= j < i ==> a@[j] == b@[j],
        decreases a@.len() - i,
    {
        if a[i] != b[i] {
            return false;
        }
        i = i + 1;
    }
    assert(a@ =~= b@);
    true
}

/// `r` is clip `orig` with the settings of `p`, streamed from `size` bytes at `offset` of
/// the modded resource file.
pub open spec fn is_patched_clip(r: AudioClip, orig: AudioClip, p: ClipPatch, offset: int, size: int) -> bool {
    &&& r.object_name@ == orig.object_name@
    &&& r.load_type == p.load_type
    &&& r.channels == p.channels
    &&& r.frequency == p.frequency
    &&& r.bits_per_sample == p.bits_per_sample
    &&& r.length == p.length
    &&& r.is_tracker_format == U8Bool(p.is_tracker_format)
    &&& r.subsound_index == p.subsound_index
    &&& r.preload_audio_data == U8Bool(p.preload_audio_data)
    &&& r.load_in_background == U8Bool(p.load_in_background)
    &&& r.legacy3d == U8Bool(p.legacy3d)
    &&& r.compression_format == p.compression_format
    &&& r.resource.source@ == modded_resource_name()
    &&& r.resource.offset == offset as i64
    &&& r.resource.size == size as i64
}

/// Sum of the first `k` sizes.
pub open spec fn sum_prefix(sizes: Seq<u64>, k: int) -> int
    decreases k,
{
    if k <= 0 {
        0
    } else {
        sum_prefix(sizes, k - 1) + sizes[k - 1]
    }
}

/// Patch `k` applied: the first clip named like it, with its settings.
pub open spec fn applies(
    r: Replacement,
    clips: Seq<Replacement>,
    p: ClipPatch,
    offset: int,
    size: int,
) -> bool {
    exists|j: int|
        0 <= j < clips.len() && (#[trigger] clips[j]).clip.object_name@ == p.object_name@ && (
        forall|i: int| 0 <= i < j ==> (#[trigger] clips[i]).clip.object_name@ != p.object_name@)
            && r.path_id == clips[j].path_id && is_patched_clip(r.clip, clips[j].clip, p, offset, size)
}

/// Builds the replacement clips for the audio patches. Patch `k` takes the first clip with
/// its object name and points it at `sizes[k]` bytes of the modded resource file, after the
/// bytes of the patches before it. The result lists the patches last first, so that the
/// latest patch of a clip is the one found first.
#[verifier::rlimit(100)]
pub fn plan_audio_patches(
    clips: &Vec<Replacement>,
    patches: &Vec<ClipPatch>,
    sizes: &Vec<u64>,
) -> (res: Result<Vec<Replacement>, Error>)
    requires
        sizes@.len() == patches@.len(),
    ensures
        res matches Ok(v) ==> v@.len() == patches@.len() && forall|k: int|
            0 <= k < patches@.len() ==> applies(
                #[trigger] v@[patches@.len() - 1 - k],
                clips@,
                patches@[k],
                sum_prefix(sizes@, k),
                sizes@[k] as int,
            ),
        res matches Err(e) ==> (e == Error::InputError && exists|k: int|
            0 <= k < patches@.len() && forall|j: int|
                0 <= j < clips@.len() ==> (#[trigger] clips@[j]).clip.object_name@ != (
                #[trigger] patches@[k]).object_name@) || (e == Error::IntegrityError
            && sum_prefix(sizes@, sizes@.len() as int) > u64::MAX),
{
    let name: Vec<u8> = vec![
        0x6du8, 0x6fu8, 0x64u8, 0x64u8, 0x65u8, 0x64u8, 0x5fu8, 0x61u8, 0x73u8, 0x73u8, 0x65u8,
        0x74u8, 0x73u8, 0x30u8, 0x2eu8, 0x72u8, 0x65u8, 0x73u8, 0x6fu8, 0x75u8, 0x72u8, 0x63u8,
        0x65u8,
    ];
    let mut out: Vec<Replacement> = Vec::new();
    let mut offset: u64 = 0;
    let mut k: usize = 0;
    while k < patches.len()
        invariant
            k <= patches@.len(),
            sizes@.len() == patches@.len(),
            offset == sum_prefix(sizes@, k as int),
            name@ == modded_resource_name(),
            out@.len() == k,
            forall|q: int|
                0 <= q < k ==> applies(
                    #[trigger] out@[k - 1 - q],
                    clips@,
                    patches@[q],
                    sum_prefix(sizes@, q),
                    sizes@[q] as int,
                ),
        decreases patches@.len() - k,
    {
        let p = &patches[k];
        let j = match find_clip(clips, &p.object_name) {
            Some(j) => j,
            None => {
                return Err(Error::InputError);
            },
        };
        if sizes[k] > u64::MAX - offset {
            proof {
                lemma_sum_prefix_grows(sizes@, k as int + 1, sizes@.len() as int);
            }
            return Err(Error::IntegrityError);
        }
        let orig = &clips[j];
        let clip = AudioClip {
            object_name: vstd::slice::slice_to_vec(orig.clip.object_name.as_slice()),
            load_type: p.load_type,
            channels: p.channels,
            frequency: p.frequency,
            bits_per_sample: p.bits_per_sample,
            length: p.length,
            is_tracker_format: U8Bool(p.is_tracker_format),
            subsound_index: p.subsound_index,
            preload_audio_data: U8Bool(p.preload_audio_data),
            load_in_background: U8Bool(p.load_in_background),
            legacy3d: U8Bool(p.legacy3d),
            resource: StreamedResource {
                source: vstd::slice::slice_to_vec(name.as_slice()),
                offset: offset as i64,
                size: sizes[k] as i64,
            },
            compression_format: p.compression_format,
        };
        let entry = Replacement { path_id: orig.path_id, clip };
        assert(applies(entry, clips@, patches@[k as int], sum_prefix(sizes@, k as int), sizes@[k as int] as int));
        let ghost before = out@;
        out.insert(0, entry);
        offset = offset + sizes[k];
        k = k + 1;
        assert forall|q: int| 0 <= q < k implies applies(
            #[trigger] out@[k - 1 - q],
            clips@,
            patches@[q],
            sum_prefix(sizes@, q),
            sizes@[q] as int,
        ) by {
            if q < k - 1 {
                assert(out@[k - 1 - q] == before[k - 2 - q]);
            }
        }
    }
    Ok(out)
}

proof fn lemma_sum_prefix_grows(sizes: Seq<u64>, i: int, j: int)
    requires
        0 <= i <= j <= sizes.len(),
    ensures
        sum_prefix(sizes, i) <= sum_prefix(sizes, j),
    decreases j - i,
{
    if i < j {
        lemma_sum_prefix_grows(sizes, i, j - 1);
    }
}

} // verus!
