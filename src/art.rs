use vstd::prelude::*;
use crate::binio::{le_u32, u16_bytes, Endian, WriteExt};
use crate::crypto::{decrypt, decrypted, encrypt, encrypted, lemma_decrypt_encrypt};
use crate::error::Error;

verus! {

/// One entry of the Art.dat header: a `/`-separated name under `assets/` and a byte count.
#[derive(Debug, Clone, PartialEq, Eq)]
pub struct AssetMetadata {
    pub name: String,
    pub size: usize,
}

/// The plain (not yet encrypted) Art.dat: little-endian `u16` header length, header, payload.
pub open spec fn framed(header: Seq<u8>, payload: Seq<u8>) -> Seq<u8> {
    u16_bytes(header.len() as u16, Endian::Little) + header + payload
}

/// The header length stored in the first two bytes of a plain Art.dat.
pub open spec fn header_len_of(p: Seq<u8>) -> int {
    le_u32(p[0], p[1], 0, 0) as int
}

/// Frames the serialized header and the concatenated payloads and encrypts the result in
/// place with the key schedule `key`. An image of fewer than two words is refused: the cipher
/// cannot be undone on a single word.
pub fn pack_art(key: &[u32], header: &[u8], payload: &[u8]) -> (res: Result<Vec<u8>, Error>)
    requires
        key@.len() == 4,
    ensures
        res is Ok <==> header@.len() <= u16::MAX && 2 + header@.len() + payload@.len() >= 8,
        res matches Ok(v) ==> v@ == encrypted(key@, framed(header@, payload@)),
        res matches Err(e) ==> e == Error::InputError,
{
    if header.len() > 0xffff {
        return Err(Error::InputError);
    }
    if payload.len() < 6 && header.len() + payload.len() < 6 {
        return Err(Error::InputError);
    }
    let mut out: Vec<u8> = Vec::new();
    out.write_u16_order(&Endian::Little, header.len() as u16);
    out.write_bytes(header);
    out.write_bytes(payload);
    assert(out@ =~= framed(header@, payload@));
    encrypt(key, out.as_mut_slice());
    Ok(out)
}

/// Decrypts an Art.dat and splits it into its serialized header and its payload region.
pub fn unpack_art(key: &[u32], data: &[u8]) -> (res: Result<(Vec<u8>, Vec<u8>), Error>)
    requires
        key@.len() == 4,
    ensures
        res is Ok <==> data@.len() >= 4 && 2 + header_len_of(decrypted(key@, data@))
            <= data@.len(),
        res matches Ok((h, b)) ==> {
            let p = decrypted(key@, data@);
            let l = header_len_of(p);
            &&& h@ == p.subrange(2, 2 + l)
            &&& b@ == p.subrange(2 + l, p.len() as int)
        },
        res matches Err(e) ==> e == Error::MalformedInput,
{
    if data.len() < 4 {
        return Err(Error::MalformedInput);
    }
    let mut p = vstd::slice::slice_to_vec(data);
    decrypt(key, p.as_mut_slice());
    let l = ((p[0] as u32) | ((p[1] as u32) << 8u32)) as usize;
    assert(l == header_len_of(p@)) by {
        assert((p@[0] as u32) | ((p@[1] as u32) << 8u32) == (p@[0] as u32) | ((p@[1] as u32)
            << 8u32) | ((0u8 as u32) << 16u32) | ((0u8 as u32) << 24u32)) by (bit_vector);
    }
    if l > p.len() - 2 {
        return Err(Error::MalformedInput);
    }
    let h = vstd::slice::slice_to_vec(vstd::slice::slice_subrange(p.as_slice(), 2, 2 + l));
    let b = vstd::slice::slice_to_vec(vstd::slice::slice_subrange(p.as_slice(), 2 + l, p.len()));
    Ok((h, b))
}

/// Where entry `i` starts in the payload: the sum of the sizes before it.
pub open spec fn entry_start(sizes: Seq<usize>, i: int) -> int
    decreases i,
{
    if i <= 0 {
        0
    } else {
        entry_start(sizes, i - 1) + sizes[i - 1]
    }
}

/// Cuts the payload into consecutive pieces of the given sizes, in order.
pub fn split_entries(payload: &[u8], sizes: &Vec<usize>) -> (res: Result<Vec<Vec<u8>>, Error>)
    ensures
        res is Ok <==> entry_start(sizes@, sizes@.len() as int) <= payload@.len(),
        res matches Ok(v) ==> v@.len() == sizes@.len() && forall|i: int|
            0 <= i < sizes@.len() ==> (#[trigger] v@[i])@ == payload@.subrange(
                entry_start(sizes@, i),
                entry_start(sizes@, i) + sizes@[i],
            ),
        res matches Err(e) ==> e == Error::IntegrityError,
{
    let mut v: Vec<Vec<u8>> = Vec::new();
    let mut at: usize = 0;
    let mut i: usize = 0;
    while i < sizes.len()
        invariant
            i <= sizes@.len(),
            at == entry_start(sizes@, i as int),
            at <= payload@.len(),
            v@.len() == i,
            forall|k: int|
                0 <= k < i ==> (#[trigger] v@[k])@ == payload@.subrange(
                    entry_start(sizes@, k),
                    entry_start(sizes@, k) + sizes@[k],
                ),
        decreases sizes@.len() - i,
    {
        let s = sizes[i];
        if s > payload.len() - at {
            proof {
                lemma_entry_start_grows(sizes@, i as int + 1, sizes@.len() as int);
            }
            return Err(Error::IntegrityError);
        }
        let piece = vstd::slice::slice_to_vec(vstd::slice::slice_subrange(payload, at, at + s));
        v.push(piece);
        at = at + s;
        i = i + 1;
    }
    Ok(v)
}

proof fn lemma_entry_start_grows(sizes: Seq<usize>, i: int, j: int)
    requires
        0 <= i <= j <= sizes.len(),
    ensures
        entry_start(sizes, i) <= entry_start(sizes, j),
    decreases j - i,
{
    if i < j {
        lemma_entry_start_grows(sizes, i, j - 1);
    }
}

pub open spec fn assets_prefix() -> Seq<u8> {
    seq![0x61u8, 0x73u8, 0x73u8, 0x65u8, 0x74u8, 0x73u8, 0x2fu8]
}

/// The entry name of a file at relative path `rel`: `assets/` and the path with `\` turned
/// into `/`.
pub open spec fn entry_name_of(rel: Seq<u8>) -> Seq<u8> {
    assets_prefix() + rel.map_values(|b: u8| if b == 0x5cu8 { 0x2fu8 } else { b })
}

/// Computes the header name of a packed file from its UTF-8 relative path.
pub fn entry_name(rel: &[u8]) -> (r: Vec<u8>)
    ensures
        r@ == entry_name_of(rel@),
{
    let mut out: Vec<u8> = vec![0x61u8, 0x73u8, 0x73u8, 0x65u8, 0x74u8, 0x73u8, 0x2fu8];
    assert(out@ =~= assets_prefix());
    let mut i: usize = 0;
    while i < rel.len()
        invariant
            i <= rel@.len(),
            out@ == assets_prefix() + rel@.subrange(0, i as int).map_values(
                |b: u8| if b == 0x5cu8 { 0x2fu8 } else { b },
            ),
        decreases rel@.len() - i,
    {
        let b = rel[i];
        out.push(if b == 0x5c { 0x2f } else { b });
        i = i + 1;
        assert(out@ =~= assets_prefix() + rel@.subrange(0, i as int).map_values(
            |b: u8| if b == 0x5cu8 { 0x2fu8 } else { b },
        ));
    }
    assert(rel@.subrange(0, rel@.len() as int) =~= rel@);
    out
}


/// Unpacking a packed Art.dat of at least two full words gives back the header and the
/// payload that were packed.
pub proof fn lemma_unpack_pack(key: Seq<u32>, header: Seq<u8>, payload: Seq<u8>)
    requires
        header.len() <= u16::MAX,
        2 + header.len() + payload.len() >= 8,
    ensures
        ({
            let p = decrypted(key, encrypted(key, framed(header, payload)));
            &&& header_len_of(p) == header.len()
            &&& p.subrange(2, 2 + header.len() as int) == header
            &&& p.subrange(2 + header.len() as int, p.len() as int) == payload
        }),
{
    let f = framed(header, payload);
    lemma_decrypt_encrypt(key, f);
    let n = header.len() as u16;
    assert(le_u32(f[0], f[1], 0, 0) == n as u32) by {
        assert(le_u32((((n as u32) >> 0u32) & 0xff) as u8, (((n as u32) >> 8u32) & 0xff) as u8, 0, 0)
            == n as u32) by {
            assert(((((n as u32) >> 0u32) & 0xff) as u8 as u32) | (((((n as u32) >> 8u32) & 0xff) as u8 as u32)
                << 8u32) | ((0u8 as u32) << 16u32) | ((0u8 as u32) << 24u32) == n as u32) by (bit_vector);
        }
    }
    assert(f.subrange(2, 2 + header.len() as int) =~= header);
    assert(f.subrange(2 + header.len() as int, f.len() as int) =~= payload);
}

/// The first `k` files laid end to end.
pub open spec fn joined(files: Seq<Seq<u8>>, k: int) -> Seq<u8>
    decreases k,
{
    if k <= 0 {
        seq![]
    } else {
        joined(files, k - 1) + files[k - 1]
    }
}

/// The size of each file.
pub open spec fn lengths(files: Seq<Seq<u8>>) -> Seq<usize> {
    Seq::new(files.len(), |i: int| files[i].len() as usize)
}

proof fn lemma_joined_starts(files: Seq<Seq<u8>>, k: int)
    requires
        0 <= k <= files.len(),
        forall|i: int| 0 <= i < files.len() ==> (#[trigger] files[i]).len() <= usize::MAX,
    ensures
        entry_start(lengths(files), k) == joined(files, k).len(),
    decreases k,
{
    if k > 0 {
        lemma_joined_starts(files, k - 1);
    }
}

proof fn lemma_joined_prefix(files: Seq<Seq<u8>>, m: int, n: int)
    requires
        0 <= m <= n <= files.len(),
    ensures
        joined(files, m).len() <= joined(files, n).len(),
        joined(files, n).subrange(0, joined(files, m).len() as int) == joined(files, m),
    decreases n - m,
{
    if m < n {
        lemma_joined_prefix(files, m, n - 1);
        let a = joined(files, n - 1);
        assert(joined(files, n).subrange(0, joined(files, m).len() as int) =~= a.subrange(
            0,
            joined(files, m).len() as int,
        ));
    } else {
        assert(joined(files, n).subrange(0, joined(files, n).len() as int) =~= joined(files, n));
    }
}

/// Cutting files laid end to end at their own sizes gives back every file, and the sizes
/// add up to the whole.
pub proof fn lemma_split_joined(files: Seq<Seq<u8>>)
    requires
        forall|i: int| 0 <= i < files.len() ==> (#[trigger] files[i]).len() <= usize::MAX,
    ensures
        entry_start(lengths(files), files.len() as int) == joined(files, files.len() as int).len(),
        forall|i: int|
            0 <= i < files.len() ==> joined(files, files.len() as int).subrange(
                entry_start(lengths(files), i),
                entry_start(lengths(files), i) + lengths(files)[i],
            ) == #[trigger] files[i],
{
    let n = files.len() as int;
    lemma_joined_starts(files, n);
    assert forall|i: int| 0 <= i < n implies joined(files, n).subrange(
        entry_start(lengths(files), i),
        entry_start(lengths(files), i) + lengths(files)[i],
    ) == #[trigger] files[i] by {
        lemma_joined_starts(files, i);
        lemma_joined_prefix(files, i + 1, n);
        let j1 = joined(files, i + 1);
        assert(j1 == joined(files, i) + files[i]);
        assert(joined(files, n).subrange(
            entry_start(lengths(files), i),
            entry_start(lengths(files), i) + lengths(files)[i],
        ) =~= j1.subrange(joined(files, i).len() as int, j1.len() as int));
    }
}

/// Depth below the output root after walking the parent directories of a `/`-separated
/// name up to byte `k`, the segment being read, and whether the walk ever left the root.
pub open spec fn walk(name: Seq<u8>, k: int) -> (nat, Seq<u8>, bool)
    decreases k,
{
    if k <= 0 {
        (0, seq![], false)
    } else {
        let (depth, seg, out) = walk(name, k - 1);
        if name[k - 1] == 0x2fu8 {
            let (d2, o2) = step_into(depth, seg);
            (d2, seq![], out || o2)
        } else {
            (depth, seg.push(name[k - 1]), out)
        }
    }
}

/// Entering directory `seg` at `depth`: `..` goes up (leaving the root at depth 0), `.` and
/// the empty segment stay, anything else goes down.
pub open spec fn step_into(depth: nat, seg: Seq<u8>) -> (nat, bool) {
    if seg == seq![0x2eu8, 0x2eu8] {
        if depth == 0 {
            (0, true)
        } else {
            ((depth - 1) as nat, false)
        }
    } else if seg == seq![0x2eu8] || seg.len() == 0 {
        (depth, false)
    } else {
        (depth + 1, false)
    }
}

/// The parent directory of entry `name` lies outside the output root: the name is absolute
/// or one of its `..` segments climbs above the root.
pub open spec fn parent_escapes(name: Seq<u8>) -> bool {
    (name.len() > 0 && name[0] == 0x2fu8) || walk(name, name.len() as int).2
}

/// The path-traversal guard: whether an entry would be written outside the output root.
pub fn escapes_root(name: &[u8]) -> (r: bool)
    ensures
        r == parent_escapes(name@),
{
    if name.len() > 0 && name[0] == 0x2f {
        return true;
    }
    let mut depth: usize = 0;
    let mut seg: Vec<u8> = Vec::new();
    let mut out = false;
    let mut i: usize = 0;
    while i < name.len()
        invariant
            i <= name@.len(),
            depth <= i,
            walk(name@, i as int) == (depth as nat, seg@, out),
        decreases name@.len() - i,
    {
        let b = name[i];
        if b == 0x2f {
            let dots2 = seg.len() == 2 && seg[0] == 0x2e && seg[1] == 0x2e;
            let dot1 = seg.len() == 1 && seg[0] == 0x2e;
            proof {
                if seg@.len() == 2 {
                    assert(dots2 <==> seg@ =~= seq![0x2eu8, 0x2eu8]);
                }
                if seg@.len() == 1 {
                    assert(dot1 <==> seg@ =~= seq![0x2eu8]);
                }
            }
            if dots2 {
                if depth == 0 {
                    out = true;
                } else {
                    depth = depth - 1;
                }
            } else if dot1 || seg.len() == 0 {
            } else {
                depth = depth + 1;
            }
            seg = Vec::new();
        } else {
            seg.push(b);
        }
        i = i + 1;
    }
    out
}

} // verus!
