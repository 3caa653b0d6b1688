use vstd::prelude::*;
use crate::binio::{
    i32_bytes, i64_bytes, lemma_i32_bytes_injective, lemma_nul_unique, lemma_u32_bytes_injective, nul_bytes, pad_len, u16_bytes, u32_bytes, u64_bytes, zeros, Endian, Reader,
    WriteExt,
};
use crate::error::Error;

verus! {

/// Class id of a TextAsset object.
pub const TEXT_ASSET_CLASS: i32 = 49;

/// Class id of an AudioClip object.
pub const AUDIO_CLIP_CLASS: i32 = 83;

/// Class id of a type that carries a script id.
pub const MONO_BEHAVIOUR_CLASS: i32 = 114;

/// The only format version that is read.
pub const SUPPORTED_VERSION: u32 = 22;

/// Length of the serialized header.
pub const HEADER_LEN: usize = 48;

/// A boolean stored as one byte.
#[derive(Debug, Clone, Copy, PartialEq, Eq, Structural)]
pub struct U8Bool(pub bool);

/// The fixed big-endian header of an AssetsFile.
#[derive(Debug, Clone, Copy, PartialEq, Eq, Structural)]
pub struct AssetsFileHeader {
    pub version: u32,
    pub metadata_size: u64,
    pub file_size: u64,
    pub offset_first_file: u64,
    pub endianness: Endian,
}

/// An entry of the type table.
#[derive(Debug, Clone)]
pub struct SerializedType {
    pub class_id: i32,
    pub is_stripped_type: U8Bool,
    pub script_type_index: u16,
    pub script_id: Option<Vec<u8>>,
    pub old_type_hash: Vec<u8>,
}

/// An entry of the script type table.
#[derive(Debug, Clone, Copy, PartialEq, Eq, Structural)]
pub struct ScriptType {
    pub local_serialized_file_index: i32,
    pub local_identifier_in_file: i64,
}

/// A reference to another serialized file.
#[derive(Debug, Clone)]
pub struct FileIdentifier {
    pub temp_empty: Vec<u8>,
    pub guid: Vec<u8>,
    pub file_type: i32,
    pub path: Vec<u8>,
}

/// A row of the object table; `byte_start` is relative to `offset_first_file`.
#[derive(Debug, Clone, Copy, PartialEq, Eq, Structural)]
pub struct ObjectInfo {
    pub path_id: i64,
    pub byte_start: u64,
    pub byte_size: u32,
    pub type_id: i32,
}

/// An object with its type resolved to a class id.
#[derive(Debug, Clone, Copy, PartialEq, Eq, Structural)]
pub struct ResolvedObjectInfo {
    pub path_id: i64,
    pub byte_start: u64,
    pub byte_size: u32,
    pub class_id: i32,
}

/// The metadata section that follows the header, in the header's byte order.
#[derive(Debug, Clone)]
pub struct AssetsFileContent {
    pub unity_version: Vec<u8>,
    pub target: u32,
    pub enable_type_tree: U8Bool,
    pub types: Vec<SerializedType>,
    pub objects: Vec<ObjectInfo>,
    pub script_types: Vec<ScriptType>,
    pub externals: Vec<FileIdentifier>,
    pub ref_types: Vec<SerializedType>,
    pub user_information: Vec<u8>,
}

/// A parsed AssetsFile: header and metadata; object data stays in the file's bytes.
#[derive(Debug, Clone)]
pub struct AssetsFile {
    pub header: AssetsFileHeader,
    pub content: AssetsFileContent,
}

// The serialized form. Bytes that the reader skips without reading a value from them
// (reserved bytes, alignment) and the byte of a true boolean come from `fill`: zero
// bytes (and 1 for true) when writing, the file's own bytes when reading.

/// The filler of a written file.
pub open spec fn zero_fill() -> spec_fn(int) -> u8 {
    |i: int| 0u8
}

/// The filler of a file that was read: its own bytes.
pub open spec fn fill_of(d: Seq<u8>) -> spec_fn(int) -> u8 {
    |i: int| d[i]
}

pub open spec fn filled(fill: spec_fn(int) -> u8, pos: int, n: int) -> Seq<u8> {
    Seq::new(n as nat, |j: int| fill(pos + j))
}

pub open spec fn bool_byte(b: bool, fill: spec_fn(int) -> u8, pos: int) -> u8 {
    if !b {
        0u8
    } else if fill(pos) != 0 {
        fill(pos)
    } else {
        1u8
    }
}

pub open spec fn endian_byte(e: Endian) -> u8 {
    match e {
        Endian::Little => 0u8,
        Endian::Big => 1u8,
    }
}

/// Items serialized one after another, each at the position where the previous ends.
pub open spec fn ser_list<T>(s: Seq<T>, pos: int, f: spec_fn(T, int) -> Seq<u8>) -> Seq<u8>
    decreases s.len(),
{
    if s.len() == 0 {
        seq![]
    } else {
        let prev = ser_list(s.drop_last(), pos, f);
        prev + f(s.last(), pos + prev.len())
    }
}

pub open spec fn ser_header(h: AssetsFileHeader, fill: spec_fn(int) -> u8) -> Seq<u8> {
    filled(fill, 0, 8) + u32_bytes(h.version, Endian::Big) + filled(fill, 12, 4) + u64_bytes(
        h.metadata_size,
        Endian::Big,
    ) + u64_bytes(h.file_size, Endian::Big) + u64_bytes(h.offset_first_file, Endian::Big) + seq![
        endian_byte(h.endianness)] + filled(fill, 41, 7)
}

pub open spec fn ser_serialized_type(
    t: SerializedType,
    e: Endian,
    pos: int,
    fill: spec_fn(int) -> u8,
) -> Seq<u8> {
    i32_bytes(t.class_id, e) + seq![bool_byte(t.is_stripped_type.0, fill, pos + 4)] + u16_bytes(
        t.script_type_index,
        e,
    ) + script_id_bytes(t) + t.old_type_hash@
}

/// The script id bytes, present only for class id 114.
pub open spec fn script_id_bytes(t: SerializedType) -> Seq<u8> {
    if t.class_id == MONO_BEHAVIOUR_CLASS {
        match t.script_id {
            Some(v) => v@,
            None => seq![],
        }
    } else {
        seq![]
    }
}

pub open spec fn ser_object(o: ObjectInfo, e: Endian, pos: int, fill: spec_fn(int) -> u8) -> Seq<
    u8,
> {
    filled(fill, pos, pad_len(pos, 4)) + i64_bytes(o.path_id, e) + u64_bytes(o.byte_start, e)
        + u32_bytes(o.byte_size, e) + i32_bytes(o.type_id, e)
}

pub open spec fn ser_script_type(s: ScriptType, e: Endian, pos: int, fill: spec_fn(int) -> u8) -> Seq<
    u8,
> {
    i32_bytes(s.local_serialized_file_index, e) + filled(fill, pos + 4, pad_len(pos + 4, 4))
        + i64_bytes(s.local_identifier_in_file, e)
}

pub open spec fn ser_external(x: FileIdentifier, e: Endian) -> Seq<u8> {
    nul_bytes(x.temp_empty@) + x.guid@ + i32_bytes(x.file_type, e) + nul_bytes(x.path@)
}

pub open spec fn ser_types(s: Seq<SerializedType>, e: Endian, pos: int, fill: spec_fn(int) -> u8) -> Seq<
    u8,
> {
    ser_list(s, pos, |t: SerializedType, p: int| ser_serialized_type(t, e, p, fill))
}

pub open spec fn ser_objects(s: Seq<ObjectInfo>, e: Endian, pos: int, fill: spec_fn(int) -> u8) -> Seq<
    u8,
> {
    ser_list(s, pos, |o: ObjectInfo, p: int| ser_object(o, e, p, fill))
}

pub open spec fn ser_script_types(
    s: Seq<ScriptType>,
    e: Endian,
    pos: int,
    fill: spec_fn(int) -> u8,
) -> Seq<u8> {
    ser_list(s, pos, |x: ScriptType, p: int| ser_script_type(x, e, p, fill))
}

pub open spec fn ser_externals(s: Seq<FileIdentifier>, e: Endian, pos: int) -> Seq<u8> {
    ser_list(s, pos, |x: FileIdentifier, p: int| ser_external(x, e))
}

/// The type table with its count, starting at `pos`.
pub open spec fn ser_type_table(
    s: Seq<SerializedType>,
    e: Endian,
    pos: int,
    fill: spec_fn(int) -> u8,
) -> Seq<u8> {
    i32_bytes(s.len() as i32, e) + ser_types(s, e, pos + 4, fill)
}

pub open spec fn ser_object_table(s: Seq<ObjectInfo>, e: Endian, pos: int, fill: spec_fn(int) -> u8) -> Seq<
    u8,
> {
    i32_bytes(s.len() as i32, e) + ser_objects(s, e, pos + 4, fill)
}

pub open spec fn ser_script_table(
    s: Seq<ScriptType>,
    e: Endian,
    pos: int,
    fill: spec_fn(int) -> u8,
) -> Seq<u8> {
    i32_bytes(s.len() as i32, e) + ser_script_types(s, e, pos + 4, fill)
}

pub open spec fn ser_external_table(s: Seq<FileIdentifier>, e: Endian, pos: int) -> Seq<u8> {
    i32_bytes(s.len() as i32, e) + ser_externals(s, e, pos + 4)
}

/// The leading fields of the content section.
pub open spec fn ser_preamble(c: AssetsFileContent, e: Endian, pos: int, fill: spec_fn(int) -> u8) -> Seq<
    u8,
> {
    nul_bytes(c.unity_version@) + u32_bytes(c.target, e) + seq![
        bool_byte(c.enable_type_tree.0, fill, pos + c.unity_version@.len() + 5)]
}

pub open spec fn ser_content(c: AssetsFileContent, e: Endian, pos: int, fill: spec_fn(int) -> u8) -> Seq<
    u8,
> {
    ser_content_with(c, c.objects@, e, pos, fill)
}

/// The content section of `c` with `objects` as its object table.
pub open spec fn ser_content_with(
    c: AssetsFileContent,
    objects: Seq<ObjectInfo>,
    e: Endian,
    pos: int,
    fill: spec_fn(int) -> u8,
) -> Seq<u8> {
    let s0 = ser_preamble(c, e, pos, fill);
    let p1 = pos + s0.len();
    let s1 = ser_type_table(c.types@, e, p1, fill);
    let p2 = p1 + s1.len();
    let s2 = ser_object_table(objects, e, p2, fill);
    let p3 = p2 + s2.len();
    let s3 = ser_script_table(c.script_types@, e, p3, fill);
    let p4 = p3 + s3.len();
    let s4 = ser_external_table(c.externals@, e, p4);
    let p5 = p4 + s4.len();
    let s5 = ser_type_table(c.ref_types@, e, p5, fill);
    s0 + s1 + s2 + s3 + s4 + s5 + nul_bytes(c.user_information@)
}

/// The serialized header and content section of `f`.
pub open spec fn ser_file(f: AssetsFile, fill: spec_fn(int) -> u8) -> Seq<u8> {
    ser_header(f.header, fill) + ser_content(
        f.content,
        f.header.endianness,
        HEADER_LEN as int,
        fill,
    )
}

/// The bytes that writing `f` produces.
pub open spec fn written_file(f: AssetsFile) -> Seq<u8> {
    ser_file(f, zero_fill())
}

pub open spec fn counts_fit(c: AssetsFileContent) -> bool {
    &&& c.types@.len() <= i32::MAX
    &&& c.objects@.len() <= i32::MAX
    &&& c.script_types@.len() <= i32::MAX
    &&& c.externals@.len() <= i32::MAX
    &&& c.ref_types@.len() <= i32::MAX
}

proof fn lemma_ser_list_prefix<T>(s: Seq<T>, k: int, pos: int, f: spec_fn(T, int) -> Seq<u8>)
    requires
        0 <= k <= s.len(),
    ensures
        ser_list(s.take(k), pos, f).len() <= ser_list(s, pos, f).len(),
        ser_list(s, pos, f).subrange(0, ser_list(s.take(k), pos, f).len() as int) == ser_list(
            s.take(k),
            pos,
            f,
        ),
    decreases s.len(),
{
    if k == s.len() {
        assert(s.take(k) =~= s);
        assert(ser_list(s, pos, f).subrange(0, ser_list(s, pos, f).len() as int) =~= ser_list(s, pos, f));
    } else {
        let t = s.drop_last();
        assert(s.take(k) =~= t.take(k));
        lemma_ser_list_prefix(t, k, pos, f);
        let x = ser_list(t, pos, f);
        let m = ser_list(t.take(k), pos, f).len() as int;
        assert(ser_list(s, pos, f).subrange(0, m) =~= x.subrange(0, m));
    }
}

proof fn lemma_list_item_at<T>(d: Seq<u8>, p: int, s: Seq<T>, i: int, f: spec_fn(T, int) -> Seq<u8>)
    requires
        0 <= i < s.len(),
        holds_at(d, p, ser_list(s, p, f)),
    ensures
        holds_at(d, p + ser_list(s.take(i), p, f).len(), f(s[i], p + ser_list(s.take(i), p, f).len())),
        ser_list(s.take(i + 1), p, f) == ser_list(s.take(i), p, f) + f(s[i], p + ser_list(s.take(i), p, f).len()),
{
    assert(s.take(i + 1).drop_last() =~= s.take(i));
    assert(s.take(i + 1).last() == s[i]);
    lemma_ser_list_prefix(s, i + 1, p, f);
    let x = ser_list(s, p, f);
    let y = ser_list(s.take(i + 1), p, f);
    assert(x =~= y + x.subrange(y.len() as int, x.len() as int));
    lemma_holds_split(d, p, y, x.subrange(y.len() as int, x.len() as int));
    lemma_holds_split(d, p, ser_list(s.take(i), p, f), f(s[i], p + ser_list(s.take(i), p, f).len()));
}

proof fn lemma_ser_list_push<T>(s: Seq<T>, x: T, pos: int, f: spec_fn(T, int) -> Seq<u8>)
    ensures
        ser_list(s.push(x), pos, f) == ser_list(s, pos, f) + f(x, pos + ser_list(s, pos, f).len()),
{
    assert(s.push(x).drop_last() =~= s);
}


proof fn lemma_zero_filled(pos: int, n: int)
    requires
        n >= 0,
    ensures
        filled(zero_fill(), pos, n) == zeros(n),
{
    assert(filled(zero_fill(), pos, n) =~= zeros(n));
}

fn write_bool(out: &mut Vec<u8>, b: U8Bool)
    ensures
        final(out)@ == old(out)@.push(bool_byte(b.0, zero_fill(), old(out)@.len() as int)),
{
    out.write_u8(if b.0 { 1u8 } else { 0u8 });
}

fn write_zeros(out: &mut Vec<u8>, n: usize)
    ensures
        final(out)@ == old(out)@ + zeros(n as int),
{
    let mut i: usize = 0;
    while i < n
        invariant
            i <= n,
            out@ == old(out)@ + zeros(i as int),
        decreases n - i,
    {
        out.push(0u8);
        i = i + 1;
        assert(out@ =~= old(out)@ + zeros(i as int));
    }
}

impl AssetsFileHeader {
    /// Appends the 48 header bytes, big-endian, with zero reserved bytes.
    pub fn write_to(&self, out: &mut Vec<u8>)
        requires
            old(out)@.len() == 0,
        ensures
            final(out)@ == ser_header(*self, zero_fill()),
    {
        let be = Endian::Big;
        write_zeros(out, 8);
        out.write_u32_order(&be, self.version);
        write_zeros(out, 4);
        out.write_u64_order(&be, self.metadata_size);
        out.write_u64_order(&be, self.file_size);
        out.write_u64_order(&be, self.offset_first_file);
        out.write_u8(
            match self.endianness {
                Endian::Little => 0u8,
                Endian::Big => 1u8,
            },
        );
        write_zeros(out, 7);
        proof {
            lemma_zero_filled(0, 8);
            lemma_zero_filled(12, 4);
            lemma_zero_filled(41, 7);
        }
        assert(out@ =~= ser_header(*self, zero_fill()));
    }
}

impl SerializedType {
    pub fn write_to(&self, e: Endian, out: &mut Vec<u8>)
        ensures
            final(out)@ == old(out)@ + ser_serialized_type(
                *self,
                e,
                old(out)@.len() as int,
                zero_fill(),
            ),
    {
        out.write_u32_order(&e, self.class_id as u32);
        write_bool(out, self.is_stripped_type);
        out.write_u16_order(&e, self.script_type_index);
        if self.class_id == MONO_BEHAVIOUR_CLASS {
            match &self.script_id {
                Some(v) => out.write_bytes(v.as_slice()),
                None => {},
            }
        }
        out.write_bytes(self.old_type_hash.as_slice());
        assert(out@ =~= old(out)@ + ser_serialized_type(
            *self,
            e,
            old(out)@.len() as int,
            zero_fill(),
        ));
    }
}

impl ObjectInfo {
    pub fn write_to(&self, e: Endian, out: &mut Vec<u8>)
        ensures
            final(out)@ == old(out)@ + ser_object(*self, e, old(out)@.len() as int, zero_fill()),
    {
        out.align(4);
        proof {
            lemma_zero_filled(old(out)@.len() as int, pad_len(old(out)@.len() as int, 4));
        }
        out.write_u64_order(&e, self.path_id as u64);
        out.write_u64_order(&e, self.byte_start);
        out.write_u32_order(&e, self.byte_size);
        out.write_u32_order(&e, self.type_id as u32);
        assert(out@ =~= old(out)@ + ser_object(*self, e, old(out)@.len() as int, zero_fill()));
    }
}

impl ScriptType {
    pub fn write_to(&self, e: Endian, out: &mut Vec<u8>)
        ensures
            final(out)@ == old(out)@ + ser_script_type(
                *self,
                e,
                old(out)@.len() as int,
                zero_fill(),
            ),
    {
        out.write_u32_order(&e, self.local_serialized_file_index as u32);
        let ghost mid = out@.len() as int;
        out.align(4);
        proof {
            lemma_zero_filled(mid, pad_len(mid, 4));
        }
        out.write_u64_order(&e, self.local_identifier_in_file as u64);
        assert(out@ =~= old(out)@ + ser_script_type(
            *self,
            e,
            old(out)@.len() as int,
            zero_fill(),
        ));
    }
}

impl FileIdentifier {
    pub fn write_to(&self, e: Endian, out: &mut Vec<u8>)
        ensures
            final(out)@ == old(out)@ + ser_external(*self, e),
    {
        out.write_bytes(self.temp_empty.as_slice());
        out.write_u8(0);
        out.write_bytes(self.guid.as_slice());
        out.write_u32_order(&e, self.file_type as u32);
        out.write_bytes(self.path.as_slice());
        out.write_u8(0);
        assert(out@ =~= old(out)@ + ser_external(*self, e));
    }
}

fn write_type_table(s: &Vec<SerializedType>, e: Endian, out: &mut Vec<u8>)
    requires
        s@.len() <= i32::MAX,
    ensures
        final(out)@ == old(out)@ + ser_type_table(s@, e, old(out)@.len() as int, zero_fill()),
{
    let ghost start = old(out)@.len() as int;
    out.write_u32_order(&e, s.len() as u32);
    let mut i: usize = 0;
    while i < s.len()
        invariant
            i <= s@.len(),
            s@.len() <= i32::MAX,
            start == old(out)@.len(),
            out@ == old(out)@ + i32_bytes(s@.len() as i32, e) + ser_types(
                s@.subrange(0, i as int),
                e,
                start + 4,
                zero_fill(),
            ),
        decreases s@.len() - i,
    {
        let ghost before = out@;
        s[i].write_to(e, out);
        proof {
            let f = |t: SerializedType, p: int| ser_serialized_type(t, e, p, zero_fill());
            lemma_ser_list_push(s@.subrange(0, i as int), s@[i as int], start + 4, f);
            assert(s@.subrange(0, i as int).push(s@[i as int]) =~= s@.subrange(0, i + 1));
        }
        i = i + 1;
        assert(out@ =~= old(out)@ + i32_bytes(s@.len() as i32, e) + ser_types(
            s@.subrange(0, i as int),
            e,
            start + 4,
            zero_fill(),
        ));
    }
    assert(s@.subrange(0, s@.len() as int) =~= s@);
    assert(s@.len() as i32 as u32 == s.len() as u32);
    assert(out@ =~= old(out)@ + ser_type_table(s@, e, start, zero_fill()));
}

fn write_object_table(s: &Vec<ObjectInfo>, e: Endian, out: &mut Vec<u8>)
    requires
        s@.len() <= i32::MAX,
    ensures
        final(out)@ == old(out)@ + ser_object_table(s@, e, old(out)@.len() as int, zero_fill()),
{
    let ghost start = old(out)@.len() as int;
    out.write_u32_order(&e, s.len() as u32);
    let mut i: usize = 0;
    while i < s.len()
        invariant
            i <= s@.len(),
            s@.len() <= i32::MAX,
            start == old(out)@.len(),
            out@ == old(out)@ + i32_bytes(s@.len() as i32, e) + ser_objects(
                s@.subrange(0, i as int),
                e,
                start + 4,
                zero_fill(),
            ),
        decreases s@.len() - i,
    {
        s[i].write_to(e, out);
        proof {
            let f = |o: ObjectInfo, p: int| ser_object(o, e, p, zero_fill());
            lemma_ser_list_push(s@.subrange(0, i as int), s@[i as int], start + 4, f);
            assert(s@.subrange(0, i as int).push(s@[i as int]) =~= s@.subrange(0, i + 1));
        }
        i = i + 1;
        assert(out@ =~= old(out)@ + i32_bytes(s@.len() as i32, e) + ser_objects(
            s@.subrange(0, i as int),
            e,
            start + 4,
            zero_fill(),
        ));
    }
    assert(s@.subrange(0, s@.len() as int) =~= s@);
    assert(out@ =~= old(out)@ + ser_object_table(s@, e, start, zero_fill()));
}

fn write_script_table(s: &Vec<ScriptType>, e: Endian, out: &mut Vec<u8>)
    requires
        s@.len() <= i32::MAX,
    ensures
        final(out)@ == old(out)@ + ser_script_table(s@, e, old(out)@.len() as int, zero_fill()),
{
    let ghost start = old(out)@.len() as int;
    out.write_u32_order(&e, s.len() as u32);
    let mut i: usize = 0;
    while i < s.len()
        invariant
            i <= s@.len(),
            s@.len() <= i32::MAX,
            start == old(out)@.len(),
            out@ == old(out)@ + i32_bytes(s@.len() as i32, e) + ser_script_types(
                s@.subrange(0, i as int),
                e,
                start + 4,
                zero_fill(),
            ),
        decreases s@.len() - i,
    {
        s[i].write_to(e, out);
        proof {
            let f = |x: ScriptType, p: int| ser_script_type(x, e, p, zero_fill());
            lemma_ser_list_push(s@.subrange(0, i as int), s@[i as int], start + 4, f);
            assert(s@.subrange(0, i as int).push(s@[i as int]) =~= s@.subrange(0, i + 1));
        }
        i = i + 1;
        assert(out@ =~= old(out)@ + i32_bytes(s@.len() as i32, e) + ser_script_types(
            s@.subrange(0, i as int),
            e,
            start + 4,
            zero_fill(),
        ));
    }
    assert(s@.subrange(0, s@.len() as int) =~= s@);
    assert(out@ =~= old(out)@ + ser_script_table(s@, e, start, zero_fill()));
}

fn write_external_table(s: &Vec<FileIdentifier>, e: Endian, out: &mut Vec<u8>)
    requires
        s@.len() <= i32::MAX,
    ensures
        final(out)@ == old(out)@ + ser_external_table(s@, e, old(out)@.len() as int),
{
    let ghost start = old(out)@.len() as int;
    out.write_u32_order(&e, s.len() as u32);
    let mut i: usize = 0;
    while i < s.len()
        invariant
            i <= s@.len(),
            s@.len() <= i32::MAX,
            start == old(out)@.len(),
            out@ == old(out)@ + i32_bytes(s@.len() as i32, e) + ser_externals(
                s@.subrange(0, i as int),
                e,
                start + 4,
            ),
        decreases s@.len() - i,
    {
        s[i].write_to(e, out);
        proof {
            let f = |x: FileIdentifier, p: int| ser_external(x, e);
            lemma_ser_list_push(s@.subrange(0, i as int), s@[i as int], start + 4, f);
            assert(s@.subrange(0, i as int).push(s@[i as int]) =~= s@.subrange(0, i + 1));
        }
        i = i + 1;
        assert(out@ =~= old(out)@ + i32_bytes(s@.len() as i32, e) + ser_externals(
            s@.subrange(0, i as int),
            e,
            start + 4,
        ));
    }
    assert(s@.subrange(0, s@.len() as int) =~= s@);
    assert(out@ =~= old(out)@ + ser_external_table(s@, e, start));
}

impl AssetsFileContent {
    /// Appends the content section in byte order `e`; array counts come from the vectors.
    #[verifier::rlimit(50)]
    pub fn write_to(&self, e: Endian, out: &mut Vec<u8>)
        requires
            counts_fit(*self),
        ensures
            final(out)@ == old(out)@ + ser_content(*self, e, old(out)@.len() as int, zero_fill()),
    {
        let ghost o = old(out)@;
        let ghost pos = o.len() as int;
        let ghost fl = zero_fill();
        out.write_bytes(self.unity_version.as_slice());
        out.write_u8(0);
        out.write_u32_order(&e, self.target);
        write_bool(out, self.enable_type_tree);
        let ghost s0 = ser_preamble(*self, e, pos, fl);
        assert(out@ =~= o + s0);
        let ghost p1 = pos + s0.len();
        write_type_table(&self.types, e, out);
        let ghost s1 = ser_type_table(self.types@, e, p1, fl);
        let ghost p2 = p1 + s1.len();
        write_object_table(&self.objects, e, out);
        let ghost s2 = ser_object_table(self.objects@, e, p2, fl);
        let ghost p3 = p2 + s2.len();
        write_script_table(&self.script_types, e, out);
        let ghost s3 = ser_script_table(self.script_types@, e, p3, fl);
        let ghost p4 = p3 + s3.len();
        write_external_table(&self.externals, e, out);
        let ghost s4 = ser_external_table(self.externals@, e, p4);
        let ghost p5 = p4 + s4.len();
        write_type_table(&self.ref_types, e, out);
        let ghost s5 = ser_type_table(self.ref_types@, e, p5, fl);
        assert(out@ == o + s0 + s1 + s2 + s3 + s4 + s5);
        out.write_bytes(self.user_information.as_slice());
        out.write_u8(0);
        assert(out@ =~= o + (s0 + s1 + s2 + s3 + s4 + s5 + nul_bytes(self.user_information@)));
    }
}

impl AssetsFile {
    /// Serializes the header (big-endian) and the content section (in the header's byte
    /// order), with zero bytes for every reserved and alignment byte.
    #[verifier::rlimit(50)]
    pub fn write(&self) -> (r: Vec<u8>)
        requires
            counts_fit(self.content),
        ensures
            r@ == written_file(*self),
    {
        let mut out: Vec<u8> = Vec::new();
        self.header.write_to(&mut out);
        self.content.write_to(self.header.endianness, &mut out);
        out
    }
}


/// `next` is `prev` moved past exactly `bytes`.
pub open spec fn consumed(next: Reader, prev: Reader, bytes: Seq<u8>) -> bool {
    next.took(prev, bytes.len() as int, bytes)
}

pub proof fn lemma_consumed_chain(a: Reader, b: Reader, c: Reader, x: Seq<u8>, y: Seq<u8>)
    requires
        consumed(b, a, x),
        consumed(c, b, y),
    ensures
        consumed(c, a, x + y),
{
    assert(a.data@.subrange(a.pos as int, c.pos as int) =~= x + y);
}

pub proof fn lemma_filled_of(d: Seq<u8>, p: int, n: int)
    requires
        0 <= p,
        0 <= n,
        p + n <= d.len(),
    ensures
        d.subrange(p, p + n) == filled(fill_of(d), p, n),
{
    assert(d.subrange(p, p + n) =~= filled(fill_of(d), p, n));
}

/// `s` stands in `d` at `pos`.
pub open spec fn holds_at(d: Seq<u8>, pos: int, s: Seq<u8>) -> bool {
    0 <= pos && pos + s.len() <= d.len() && d.subrange(pos, pos + s.len()) == s
}

pub proof fn lemma_holds_split(d: Seq<u8>, pos: int, a: Seq<u8>, b: Seq<u8>)
    requires
        holds_at(d, pos, a + b),
    ensures
        holds_at(d, pos, a),
        holds_at(d, pos + a.len(), b),
{
    let w = d.subrange(pos, pos + (a + b).len());
    assert forall|k: int| 0 <= k < a.len() implies d.subrange(pos, pos + a.len())[k] == a[k] by {
        assert(w[k] == (a + b)[k]);
    }
    assert forall|k: int| 0 <= k < b.len() implies d.subrange(pos + a.len(), pos + a.len() + b.len())[k] == b[k] by {
        assert(w[a.len() + k] == (a + b)[a.len() + k]);
    }
    assert(d.subrange(pos, pos + a.len()) =~= a);
    assert(d.subrange(pos + a.len(), pos + a.len() + b.len()) =~= b);
}

/// A byte string that a NUL terminator can end.
pub open spec fn zero_free(s: Seq<u8>) -> bool {
    !s.contains(0u8)
}

pub open spec fn type_wf(t: SerializedType) -> bool {
    &&& t.old_type_hash@.len() == 16
    &&& t.class_id == MONO_BEHAVIOUR_CLASS ==> (t.script_id matches Some(v) && v@.len() == 16)
}

pub open spec fn external_wf(x: FileIdentifier) -> bool {
    zero_free(x.temp_empty@) && x.guid@.len() == 16 && zero_free(x.path@)
}

/// A content section that the reader takes back: strings without zero bytes, 16-byte
/// hashes and ids, no type tree, and counts that fit an `i32`.
pub open spec fn content_wf(c: AssetsFileContent) -> bool {
    &&& zero_free(c.unity_version@)
    &&& zero_free(c.user_information@)
    &&& !c.enable_type_tree.0
    &&& counts_fit(c)
    &&& forall|i: int| 0 <= i < c.types@.len() ==> type_wf(#[trigger] c.types@[i])
    &&& forall|i: int| 0 <= i < c.ref_types@.len() ==> type_wf(#[trigger] c.ref_types@[i])
    &&& forall|i: int| 0 <= i < c.externals@.len() ==> external_wf(#[trigger] c.externals@[i])
}

/// A file that the reader takes back: version 22 and a well-formed content section.
pub open spec fn file_wf(f: AssetsFile) -> bool {
    f.header.version == SUPPORTED_VERSION && content_wf(f.content)
}

fn read_null_string_at(r: &mut Reader, hint: Ghost<Seq<u8>>) -> (res: Result<Vec<u8>, Error>)
    requires
        old(r).wf(),
    ensures
        final(r).wf(),
        final(r).data@ == old(r).data@,
        res matches Ok(v) ==> consumed(*final(r), *old(r), nul_bytes(v@)) && zero_free(v@),
        zero_free(hint@) && holds_at(old(r).data@, old(r).pos as int, nul_bytes(hint@)) ==> (res
            matches Ok(v) && v@ == hint@),
{
    let ghost d = r.data@;
    let ghost p = r.pos as int;
    let res = r.read_null_string();
    proof {
        if zero_free(hint@) && holds_at(d, p, nul_bytes(hint@)) {
            assert(d.subrange(p, p + hint@.len() + 1)[hint@.len() as int] == 0u8);
            assert(d[p + hint@.len()] == 0u8);
            if res is Ok {
                lemma_nul_unique(d, p, res->Ok_0@, hint@);
            }
        }
    }
    res
}

pub(crate) fn read_bool(r: &mut Reader) -> (res: Result<U8Bool, Error>)
    requires
        old(r).wf(),
    ensures
        final(r).wf(),
        final(r).data@ == old(r).data@,
        res matches Ok(b) ==> consumed(
            *final(r),
            *old(r),
            seq![bool_byte(b.0, fill_of(old(r).data@), old(r).pos as int)],
        ),
        res is Err ==> old(r).short(1),
{
    let ghost r0 = *r;
    let b = r.read_u8()?;
    assert(r0.data@.subrange(r0.pos as int, r0.pos + 1)[0] == r0.data@[r0.pos as int]);
    assert(seq![b][0] == b);
    assert(bool_byte(b != 0, fill_of(r0.data@), r0.pos as int) == b);
    assert(seq![bool_byte(b != 0, fill_of(r0.data@), r0.pos as int)] =~= seq![b]);
    Ok(U8Bool(b != 0))
}

fn read_count(r: &mut Reader, e: Endian, hint: Ghost<nat>) -> (res: Result<usize, Error>)
    requires
        old(r).wf(),
    ensures
        final(r).wf(),
        final(r).data@ == old(r).data@,
        res matches Ok(n) ==> n <= i32::MAX && consumed(*final(r), *old(r), i32_bytes(n as i32, e)),
        hint@ <= i32::MAX && holds_at(old(r).data@, old(r).pos as int, i32_bytes(hint@ as i32, e))
            ==> (res matches Ok(n) && n == hint@),
{
    let ghost d = r.data@;
    let ghost p = r.pos as int;
    let n = r.read_i32_order(&e)?;
    assert(hint@ <= i32::MAX && holds_at(d, p, i32_bytes(hint@ as i32, e)) ==> n == hint@ as i32) by {
        if hint@ <= i32::MAX && holds_at(d, p, i32_bytes(hint@ as i32, e)) {
            lemma_i32_bytes_injective(n, hint@ as i32, e);
        }
    }
    if n < 0 {
        return Err(Error::MalformedInput);
    }
    Ok(n as usize)
}

fn read_serialized_type(r: &mut Reader, e: Endian, hint: Ghost<SerializedType>) -> (res: Result<
    SerializedType,
    Error,
>)
    requires
        old(r).wf(),
    ensures
        final(r).wf(),
        final(r).data@ == old(r).data@,
        res matches Ok(t) ==> consumed(
            *final(r),
            *old(r),
            ser_serialized_type(t, e, old(r).pos as int, fill_of(old(r).data@)),
        ),
        type_wf(hint@) && holds_at(
            old(r).data@,
            old(r).pos as int,
            ser_serialized_type(hint@, e, old(r).pos as int, zero_fill()),
        ) ==> (res is Ok && final(r).pos == old(r).pos + ser_serialized_type(
            hint@,
            e,
            old(r).pos as int,
            zero_fill(),
        ).len()),
{
    let ghost d = r.data@;
    let ghost r0 = *r;
    let ghost h = hint@;
    let ghost p0 = r.pos as int;
    let ghost good = type_wf(h) && holds_at(d, p0, ser_serialized_type(h, e, p0, zero_fill()));
    let ghost rest = seq![bool_byte(h.is_stripped_type.0, zero_fill(), p0 + 4)] + u16_bytes(
        h.script_type_index,
        e,
    ) + script_id_bytes(h) + h.old_type_hash@;
    assert(good ==> holds_at(d, p0, i32_bytes(h.class_id, e)) && holds_at(d, p0 + 4, rest)) by {
        if good {
            assert(ser_serialized_type(h, e, p0, zero_fill()) =~= i32_bytes(h.class_id, e) + rest);
            lemma_holds_split(d, p0, i32_bytes(h.class_id, e), rest);
        }
    }
    let class_id = r.read_i32_order(&e)?;
    assert(good ==> class_id == h.class_id) by {
        if good {
            lemma_i32_bytes_injective(class_id, h.class_id, e);
        }
    }
    let ghost r1 = *r;
    let stripped = read_bool(r)?;
    let ghost r2 = *r;
    let index = r.read_u16_order(&e)?;
    let ghost r3 = *r;
    let script_id = if class_id == MONO_BEHAVIOUR_CLASS {
        Some(r.read_bytes(16)?)
    } else {
        None
    };
    let ghost r4 = *r;
    let hash = r.read_bytes(16)?;
    let t = SerializedType {
        class_id,
        is_stripped_type: stripped,
        script_type_index: index,
        script_id,
        old_type_hash: hash,
    };
    proof {
        let sid = script_id_bytes(t);
        if class_id != MONO_BEHAVIOUR_CLASS {
            assert(r3.data@.subrange(r3.pos as int, r3.pos as int) =~= sid);
            assert(consumed(r4, r3, sid));
        }
        lemma_consumed_chain(r0, r1, r2, i32_bytes(class_id, e), seq![bool_byte(stripped.0, fill_of(d), r1.pos as int)]);
        lemma_consumed_chain(r0, r2, r3, i32_bytes(class_id, e) + seq![bool_byte(stripped.0, fill_of(d), r1.pos as int)], u16_bytes(index, e));
        lemma_consumed_chain(r0, r3, r4, i32_bytes(class_id, e) + seq![bool_byte(stripped.0, fill_of(d), r1.pos as int)] + u16_bytes(index, e), sid);
        lemma_consumed_chain(r0, r4, *r, i32_bytes(class_id, e) + seq![bool_byte(stripped.0, fill_of(d), r1.pos as int)] + u16_bytes(index, e) + sid, hash@);
    }
    Ok(t)
}

fn read_object(r: &mut Reader, e: Endian, hint: Ghost<ObjectInfo>) -> (res: Result<ObjectInfo, Error>)
    requires
        old(r).wf(),
    ensures
        final(r).wf(),
        final(r).data@ == old(r).data@,
        res matches Ok(o) ==> consumed(
            *final(r),
            *old(r),
            ser_object(o, e, old(r).pos as int, fill_of(old(r).data@)),
        ),
        holds_at(old(r).data@, old(r).pos as int, ser_object(hint@, e, old(r).pos as int, zero_fill()))
            ==> (res is Ok && final(r).pos == old(r).pos + ser_object(hint@, e, old(r).pos as int, zero_fill()).len()),
{
    let ghost d = r.data@;
    let ghost r0 = *r;
    r.align(4)?;
    let ghost r1 = *r;
    proof {
        lemma_filled_of(d, r0.pos as int, pad_len(r0.pos as int, 4));
    }
    let path_id = r.read_i64_order(&e)?;
    let ghost r2 = *r;
    let byte_start = r.read_u64_order(&e)?;
    let ghost r3 = *r;
    let byte_size = r.read_u32_order(&e)?;
    let ghost r4 = *r;
    let type_id = r.read_i32_order(&e)?;
    let o = ObjectInfo { path_id, byte_start, byte_size, type_id };
    proof {
        let a = filled(fill_of(d), r0.pos as int, pad_len(r0.pos as int, 4));
        lemma_consumed_chain(r0, r1, r2, a, i64_bytes(path_id, e));
        lemma_consumed_chain(r0, r2, r3, a + i64_bytes(path_id, e), u64_bytes(byte_start, e));
        lemma_consumed_chain(r0, r3, r4, a + i64_bytes(path_id, e) + u64_bytes(byte_start, e), u32_bytes(byte_size, e));
        lemma_consumed_chain(r0, r4, *r, a + i64_bytes(path_id, e) + u64_bytes(byte_start, e) + u32_bytes(byte_size, e), i32_bytes(type_id, e));
    }
    Ok(o)
}

fn read_script_type(r: &mut Reader, e: Endian, hint: Ghost<ScriptType>) -> (res: Result<ScriptType, Error>)
    requires
        old(r).wf(),
    ensures
        final(r).wf(),
        final(r).data@ == old(r).data@,
        res matches Ok(s) ==> consumed(
            *final(r),
            *old(r),
            ser_script_type(s, e, old(r).pos as int, fill_of(old(r).data@)),
        ),
        holds_at(old(r).data@, old(r).pos as int, ser_script_type(hint@, e, old(r).pos as int, zero_fill()))
            ==> (res is Ok && final(r).pos == old(r).pos + ser_script_type(hint@, e, old(r).pos as int, zero_fill()).len()),
{
    let ghost d = r.data@;
    let ghost r0 = *r;
    let index = r.read_i32_order(&e)?;
    let ghost r1 = *r;
    r.align(4)?;
    let ghost r2 = *r;
    proof {
        lemma_filled_of(d, r1.pos as int, pad_len(r1.pos as int, 4));
    }
    let id = r.read_i64_order(&e)?;
    proof {
        let a = filled(fill_of(d), r1.pos as int, pad_len(r1.pos as int, 4));
        lemma_consumed_chain(r0, r1, r2, i32_bytes(index, e), a);
        lemma_consumed_chain(r0, r2, *r, i32_bytes(index, e) + a, i64_bytes(id, e));
    }
    Ok(ScriptType { local_serialized_file_index: index, local_identifier_in_file: id })
}

fn read_external(r: &mut Reader, e: Endian, hint: Ghost<FileIdentifier>) -> (res: Result<
    FileIdentifier,
    Error,
>)
    requires
        old(r).wf(),
    ensures
        final(r).wf(),
        final(r).data@ == old(r).data@,
        res matches Ok(x) ==> consumed(*final(r), *old(r), ser_external(x, e)),
        external_wf(hint@) && holds_at(old(r).data@, old(r).pos as int, ser_external(hint@, e))
            ==> (res is Ok && final(r).pos == old(r).pos + ser_external(hint@, e).len()),
{
    let ghost d = r.data@;
    let ghost r0 = *r;
    let ghost h = hint@;
    let ghost p0 = r.pos as int;
    let ghost good = external_wf(h) && holds_at(d, p0, ser_external(h, e));
    let ghost a = nul_bytes(h.temp_empty@);
    let ghost b = h.guid@ + i32_bytes(h.file_type, e);
    let ghost c = nul_bytes(h.path@);
    assert(good ==> holds_at(d, p0, a) && holds_at(d, p0 + a.len(), b) && holds_at(d, p0 + a.len() + b.len(), c)) by {
        if good {
            assert(ser_external(h, e) =~= a + (b + c));
            lemma_holds_split(d, p0, a, b + c);
            lemma_holds_split(d, p0 + a.len(), b, c);
        }
    }
    let temp_empty = read_null_string_at(r, Ghost(h.temp_empty@))?;
    let ghost r1 = *r;
    let guid = r.read_bytes(16)?;
    let ghost r2 = *r;
    let file_type = r.read_i32_order(&e)?;
    let ghost r3 = *r;
    let path = read_null_string_at(r, Ghost(h.path@))?;
    proof {
        lemma_consumed_chain(r0, r1, r2, nul_bytes(temp_empty@), guid@);
        lemma_consumed_chain(r0, r2, r3, nul_bytes(temp_empty@) + guid@, i32_bytes(file_type, e));
        lemma_consumed_chain(r0, r3, *r, nul_bytes(temp_empty@) + guid@ + i32_bytes(file_type, e), nul_bytes(path@));
    }
    Ok(FileIdentifier { temp_empty, guid, file_type, path })
}

fn read_type_table(r: &mut Reader, e: Endian, hint: Ghost<Seq<SerializedType>>) -> (res: Result<Vec<SerializedType>, Error>)
    requires
        old(r).wf(),
    ensures
        final(r).wf(),
        final(r).data@ == old(r).data@,
        res matches Ok(v) ==> v@.len() <= i32::MAX && consumed(
            *final(r),
            *old(r),
            ser_type_table(v@, e, old(r).pos as int, fill_of(old(r).data@)),
        ),
        (forall|k: int| 0 <= k < hint@.len() ==> type_wf(#[trigger] hint@[k])) && hint@.len() <= i32::MAX && holds_at(
            old(r).data@,
            old(r).pos as int,
            ser_type_table(hint@, e, old(r).pos as int, zero_fill()),
        ) ==> (res is Ok && final(r).pos == old(r).pos + ser_type_table(hint@, e, old(r).pos as int, zero_fill()).len()),
{
    let ghost d = r.data@;
    let ghost r0 = *r;
    let ghost h = hint@;
    let ghost fz = |t: SerializedType, p: int| ser_serialized_type(t, e, p, zero_fill());
    let ghost p1 = r0.pos + 4;
    let ghost good = (forall|k: int| 0 <= k < h.len() ==> type_wf(#[trigger] h[k])) && h.len() <= i32::MAX && holds_at(d, r0.pos as int, ser_type_table(h, e, r0.pos as int, zero_fill()));
    assert(good ==> holds_at(d, r0.pos as int, i32_bytes(h.len() as i32, e)) && holds_at(d, p1, ser_list(h, p1, fz))) by {
        if good {
            lemma_holds_split(d, r0.pos as int, i32_bytes(h.len() as i32, e), ser_types(h, e, p1, zero_fill()));
        }
    }
    let n = read_count(r, e, Ghost(h.len()))?;
    let ghost r1 = *r;
    let mut v: Vec<SerializedType> = Vec::new();
    let mut i: usize = 0;
    assert(r1.data@.subrange(r1.pos as int, r1.pos as int) =~= ser_types(v@, e, r0.pos + 4, fill_of(d)));
    assert(good ==> h.take(0) =~= Seq::<SerializedType>::empty());
    while i < n
        invariant
            r.wf(),
            r.data@ == d,
            d == old(r).data@,
            r1.data@ == d,
            r1.pos <= r.pos,
            r1.pos == r0.pos + 4,
            p1 == r1.pos,
            i <= n,
            v@.len() == i,
            d.subrange(r1.pos as int, r.pos as int) == ser_types(v@, e, r0.pos + 4, fill_of(d)),
            good ==> n == h.len() && holds_at(d, p1, ser_list(h, p1, fz)) && r.pos == p1
                + ser_list(h.take(i as int), p1, fz).len(),
            good ==> forall|k: int| 0 <= k < h.len() ==> type_wf(#[trigger] h[k]),
            h == hint@,
            r0.pos == old(r).pos,
            good == ((forall|k: int| 0 <= k < h.len() ==> type_wf(#[trigger] h[k])) && h.len() <= i32::MAX && holds_at(d, r0.pos as int, ser_type_table(h, e, r0.pos as int, zero_fill()))),
            fz == |t: SerializedType, p: int| ser_serialized_type(t, e, p, zero_fill()),
        decreases n - i,
    {
        let ghost rb = *r;
        assert(good ==> fz(h[i as int], rb.pos as int) == ser_serialized_type(h[i as int], e, rb.pos as int, zero_fill()));
        assert(good ==> holds_at(d, rb.pos as int, fz(h[i as int], rb.pos as int)) && ser_list(h.take(i + 1), p1, fz).len() == ser_list(h.take(i as int), p1, fz).len() + fz(h[i as int], rb.pos as int).len()) by {
            if good {
                lemma_list_item_at(d, p1, h, i as int, fz);
            }
        }
        let x = read_serialized_type(r, e, Ghost(if good { h[i as int] } else { arbitrary() }))?;
        proof {
            let f = |t: SerializedType, p: int| ser_serialized_type(t, e, p, fill_of(d));
            lemma_ser_list_push(v@, x, r0.pos + 4, f);
            assert(d.subrange(r1.pos as int, r.pos as int) =~= d.subrange(r1.pos as int, rb.pos as int) + d.subrange(rb.pos as int, r.pos as int));
        }
        v.push(x);
        i = i + 1;
    }
    proof {
        assert(v@.len() as i32 == n as i32);
        lemma_consumed_chain(r0, r1, *r, i32_bytes(n as i32, e), ser_types(v@, e, r0.pos + 4, fill_of(d)));
        if good {
            assert(h.take(h.len() as int) =~= h);
        }
    }
    Ok(v)
}

fn read_object_table(r: &mut Reader, e: Endian, hint: Ghost<Seq<ObjectInfo>>) -> (res: Result<Vec<ObjectInfo>, Error>)
    requires
        old(r).wf(),
    ensures
        final(r).wf(),
        final(r).data@ == old(r).data@,
        res matches Ok(v) ==> v@.len() <= i32::MAX && consumed(
            *final(r),
            *old(r),
            ser_object_table(v@, e, old(r).pos as int, fill_of(old(r).data@)),
        ),
        hint@.len() <= i32::MAX && holds_at(
            old(r).data@,
            old(r).pos as int,
            ser_object_table(hint@, e, old(r).pos as int, zero_fill()),
        ) ==> (res is Ok && final(r).pos == old(r).pos + ser_object_table(hint@, e, old(r).pos as int, zero_fill()).len()),
{
    let ghost d = r.data@;
    let ghost r0 = *r;
    let ghost h = hint@;
    let ghost fz = |o: ObjectInfo, p: int| ser_object(o, e, p, zero_fill());
    let ghost p1 = r0.pos + 4;
    let ghost good = h.len() <= i32::MAX && holds_at(d, r0.pos as int, ser_object_table(h, e, r0.pos as int, zero_fill()));
    assert(good ==> holds_at(d, r0.pos as int, i32_bytes(h.len() as i32, e)) && holds_at(d, p1, ser_list(h, p1, fz))) by {
        if good {
            lemma_holds_split(d, r0.pos as int, i32_bytes(h.len() as i32, e), ser_objects(h, e, p1, zero_fill()));
        }
    }
    let n = read_count(r, e, Ghost(h.len()))?;
    let ghost r1 = *r;
    let mut v: Vec<ObjectInfo> = Vec::new();
    let mut i: usize = 0;
    assert(r1.data@.subrange(r1.pos as int, r1.pos as int) =~= ser_objects(v@, e, r0.pos + 4, fill_of(d)));
    assert(good ==> h.take(0) =~= Seq::<ObjectInfo>::empty());
    while i < n
        invariant
            r.wf(),
            r.data@ == d,
            d == old(r).data@,
            r1.data@ == d,
            r1.pos <= r.pos,
            r1.pos == r0.pos + 4,
            p1 == r1.pos,
            i <= n,
            v@.len() == i,
            d.subrange(r1.pos as int, r.pos as int) == ser_objects(v@, e, r0.pos + 4, fill_of(d)),
            good ==> n == h.len() && holds_at(d, p1, ser_list(h, p1, fz)) && r.pos == p1
                + ser_list(h.take(i as int), p1, fz).len(),
            h == hint@,
            r0.pos == old(r).pos,
            good == (h.len() <= i32::MAX && holds_at(d, r0.pos as int, ser_object_table(h, e, r0.pos as int, zero_fill()))),
            fz == |o: ObjectInfo, p: int| ser_object(o, e, p, zero_fill()),
        decreases n - i,
    {
        let ghost rb = *r;
        assert(good ==> fz(h[i as int], rb.pos as int) == ser_object(h[i as int], e, rb.pos as int, zero_fill()));
        assert(good ==> holds_at(d, rb.pos as int, fz(h[i as int], rb.pos as int)) && ser_list(h.take(i + 1), p1, fz).len() == ser_list(h.take(i as int), p1, fz).len() + fz(h[i as int], rb.pos as int).len()) by {
            if good {
                lemma_list_item_at(d, p1, h, i as int, fz);
            }
        }
        let x = read_object(r, e, Ghost(if good { h[i as int] } else { arbitrary() }))?;
        proof {
            let f = |o: ObjectInfo, p: int| ser_object(o, e, p, fill_of(d));
            lemma_ser_list_push(v@, x, r0.pos + 4, f);
            assert(d.subrange(r1.pos as int, r.pos as int) =~= d.subrange(r1.pos as int, rb.pos as int) + d.subrange(rb.pos as int, r.pos as int));
        }
        v.push(x);
        i = i + 1;
    }
    proof {
        assert(v@.len() as i32 == n as i32);
        lemma_consumed_chain(r0, r1, *r, i32_bytes(n as i32, e), ser_objects(v@, e, r0.pos + 4, fill_of(d)));
        if good {
            assert(h.take(h.len() as int) =~= h);
        }
    }
    Ok(v)
}

fn read_script_table(r: &mut Reader, e: Endian, hint: Ghost<Seq<ScriptType>>) -> (res: Result<Vec<ScriptType>, Error>)
    requires
        old(r).wf(),
    ensures
        final(r).wf(),
        final(r).data@ == old(r).data@,
        res matches Ok(v) ==> v@.len() <= i32::MAX && consumed(
            *final(r),
            *old(r),
            ser_script_table(v@, e, old(r).pos as int, fill_of(old(r).data@)),
        ),
        hint@.len() <= i32::MAX && holds_at(
            old(r).data@,
            old(r).pos as int,
            ser_script_table(hint@, e, old(r).pos as int, zero_fill()),
        ) ==> (res is Ok && final(r).pos == old(r).pos + ser_script_table(hint@, e, old(r).pos as int, zero_fill()).len()),
{
    let ghost d = r.data@;
    let ghost r0 = *r;
    let ghost h = hint@;
    let ghost fz = |x: ScriptType, p: int| ser_script_type(x, e, p, zero_fill());
    let ghost p1 = r0.pos + 4;
    let ghost good = h.len() <= i32::MAX && holds_at(d, r0.pos as int, ser_script_table(h, e, r0.pos as int, zero_fill()));
    assert(good ==> holds_at(d, r0.pos as int, i32_bytes(h.len() as i32, e)) && holds_at(d, p1, ser_list(h, p1, fz))) by {
        if good {
            lemma_holds_split(d, r0.pos as int, i32_bytes(h.len() as i32, e), ser_script_types(h, e, p1, zero_fill()));
        }
    }
    let n = read_count(r, e, Ghost(h.len()))?;
    let ghost r1 = *r;
    let mut v: Vec<ScriptType> = Vec::new();
    let mut i: usize = 0;
    assert(r1.data@.subrange(r1.pos as int, r1.pos as int) =~= ser_script_types(v@, e, r0.pos + 4, fill_of(d)));
    assert(good ==> h.take(0) =~= Seq::<ScriptType>::empty());
    while i < n
        invariant
            r.wf(),
            r.data@ == d,
            d == old(r).data@,
            r1.data@ == d,
            r1.pos <= r.pos,
            r1.pos == r0.pos + 4,
            p1 == r1.pos,
            i <= n,
            v@.len() == i,
            d.subrange(r1.pos as int, r.pos as int) == ser_script_types(v@, e, r0.pos + 4, fill_of(d)),
            good ==> n == h.len() && holds_at(d, p1, ser_list(h, p1, fz)) && r.pos == p1
                + ser_list(h.take(i as int), p1, fz).len(),
            h == hint@,
            r0.pos == old(r).pos,
            good == (h.len() <= i32::MAX && holds_at(d, r0.pos as int, ser_script_table(h, e, r0.pos as int, zero_fill()))),
            fz == |x: ScriptType, p: int| ser_script_type(x, e, p, zero_fill()),
        decreases n - i,
    {
        let ghost rb = *r;
        assert(good ==> fz(h[i as int], rb.pos as int) == ser_script_type(h[i as int], e, rb.pos as int, zero_fill()));
        assert(good ==> holds_at(d, rb.pos as int, fz(h[i as int], rb.pos as int)) && ser_list(h.take(i + 1), p1, fz).len() == ser_list(h.take(i as int), p1, fz).len() + fz(h[i as int], rb.pos as int).len()) by {
            if good {
                lemma_list_item_at(d, p1, h, i as int, fz);
            }
        }
        let x = read_script_type(r, e, Ghost(if good { h[i as int] } else { arbitrary() }))?;
        proof {
            let f = |x: ScriptType, p: int| ser_script_type(x, e, p, fill_of(d));
            lemma_ser_list_push(v@, x, r0.pos + 4, f);
            assert(d.subrange(r1.pos as int, r.pos as int) =~= d.subrange(r1.pos as int, rb.pos as int) + d.subrange(rb.pos as int, r.pos as int));
        }
        v.push(x);
        i = i + 1;
    }
    proof {
        assert(v@.len() as i32 == n as i32);
        lemma_consumed_chain(r0, r1, *r, i32_bytes(n as i32, e), ser_script_types(v@, e, r0.pos + 4, fill_of(d)));
        if good {
            assert(h.take(h.len() as int) =~= h);
        }
    }
    Ok(v)
}

fn read_external_table(r: &mut Reader, e: Endian, hint: Ghost<Seq<FileIdentifier>>) -> (res: Result<Vec<FileIdentifier>, Error>)
    requires
        old(r).wf(),
    ensures
        final(r).wf(),
        final(r).data@ == old(r).data@,
        res matches Ok(v) ==> v@.len() <= i32::MAX && consumed(
            *final(r),
            *old(r),
            ser_external_table(v@, e, old(r).pos as int),
        ),
        (forall|k: int| 0 <= k < hint@.len() ==> external_wf(#[trigger] hint@[k])) && hint@.len() <= i32::MAX && holds_at(
            old(r).data@,
            old(r).pos as int,
            ser_external_table(hint@, e, old(r).pos as int),
        ) ==> (res is Ok && final(r).pos == old(r).pos + ser_external_table(hint@, e, old(r).pos as int).len()),
{
    let ghost d = r.data@;
    let ghost r0 = *r;
    let ghost h = hint@;
    let ghost fz = |x: FileIdentifier, p: int| ser_external(x, e);
    let ghost p1 = r0.pos + 4;
    let ghost good = (forall|k: int| 0 <= k < h.len() ==> external_wf(#[trigger] h[k])) && h.len() <= i32::MAX && holds_at(d, r0.pos as int, ser_external_table(h, e, r0.pos as int));
    assert(good ==> holds_at(d, r0.pos as int, i32_bytes(h.len() as i32, e)) && holds_at(d, p1, ser_list(h, p1, fz))) by {
        if good {
            lemma_holds_split(d, r0.pos as int, i32_bytes(h.len() as i32, e), ser_externals(h, e, p1));
        }
    }
    let n = read_count(r, e, Ghost(h.len()))?;
    let ghost r1 = *r;
    let mut v: Vec<FileIdentifier> = Vec::new();
    let mut i: usize = 0;
    assert(r1.data@.subrange(r1.pos as int, r1.pos as int) =~= ser_externals(v@, e, r0.pos + 4));
    assert(good ==> h.take(0) =~= Seq::<FileIdentifier>::empty());
    while i < n
        invariant
            r.wf(),
            r.data@ == d,
            d == old(r).data@,
            r1.data@ == d,
            r1.pos <= r.pos,
            r1.pos == r0.pos + 4,
            p1 == r1.pos,
            i <= n,
            v@.len() == i,
            d.subrange(r1.pos as int, r.pos as int) == ser_externals(v@, e, r0.pos + 4),
            good ==> n == h.len() && holds_at(d, p1, ser_list(h, p1, fz)) && r.pos == p1
                + ser_list(h.take(i as int), p1, fz).len(),
            good ==> forall|k: int| 0 <= k < h.len() ==> external_wf(#[trigger] h[k]),
            h == hint@,
            r0.pos == old(r).pos,
            good == ((forall|k: int| 0 <= k < h.len() ==> external_wf(#[trigger] h[k])) && h.len() <= i32::MAX && holds_at(d, r0.pos as int, ser_external_table(h, e, r0.pos as int))),
            fz == |x: FileIdentifier, p: int| ser_external(x, e),
        decreases n - i,
    {
        let ghost rb = *r;
        assert(good ==> fz(h[i as int], rb.pos as int) == ser_external(h[i as int], e));
        assert(good ==> holds_at(d, rb.pos as int, fz(h[i as int], rb.pos as int)) && ser_list(h.take(i + 1), p1, fz).len() == ser_list(h.take(i as int), p1, fz).len() + fz(h[i as int], rb.pos as int).len()) by {
            if good {
                lemma_list_item_at(d, p1, h, i as int, fz);
            }
        }
        let x = read_external(r, e, Ghost(if good { h[i as int] } else { arbitrary() }))?;
        proof {
            let f = |x: FileIdentifier, p: int| ser_external(x, e);
            lemma_ser_list_push(v@, x, r0.pos + 4, f);
            assert(d.subrange(r1.pos as int, r.pos as int) =~= d.subrange(r1.pos as int, rb.pos as int) + d.subrange(rb.pos as int, r.pos as int));
        }
        v.push(x);
        i = i + 1;
    }
    proof {
        assert(v@.len() as i32 == n as i32);
        lemma_consumed_chain(r0, r1, *r, i32_bytes(n as i32, e), ser_externals(v@, e, r0.pos + 4));
        if good {
            assert(h.take(h.len() as int) =~= h);
        }
    }
    Ok(v)
}

impl AssetsFileHeader {
    /// Reads the header at the start of the stream; only version 22 is accepted.
    pub fn read_from(r: &mut Reader) -> (res: Result<AssetsFileHeader, Error>)
        requires
            old(r).wf(),
            old(r).pos == 0,
        ensures
            final(r).wf(),
            final(r).data@ == old(r).data@,
            res matches Ok(h) ==> h.version == SUPPORTED_VERSION && consumed(
                *final(r),
                *old(r),
                ser_header(h, fill_of(old(r).data@)),
            ),
            old(r).data@.len() < 12 ==> res == Err::<AssetsFileHeader, Error>(
                Error::MalformedInput,
            ),
            old(r).data@.len() >= 12 && old(r).data@.subrange(8, 12) != u32_bytes(
                SUPPORTED_VERSION,
                Endian::Big,
            ) ==> res == Err::<AssetsFileHeader, Error>(Error::UnsupportedFormat),
            old(r).data@.len() >= HEADER_LEN && old(r).data@.subrange(8, 12) == u32_bytes(
                SUPPORTED_VERSION,
                Endian::Big,
            ) && old(r).data@[40] <= 1 ==> res is Ok,
    {
        let ghost d = r.data@;
        let ghost r0 = *r;
        let be = Endian::Big;
        r.skip(8)?;
        let ghost r1 = *r;
        let version = r.read_u32_order(&be)?;
        if version != SUPPORTED_VERSION {
            proof {
                if d.subrange(8, 12) == u32_bytes(SUPPORTED_VERSION, Endian::Big) {
                    lemma_u32_bytes_injective(version, SUPPORTED_VERSION, Endian::Big);
                }
            }
            return Err(Error::UnsupportedFormat);
        }
        let ghost r2 = *r;
        r.skip(4)?;
        let ghost r3 = *r;
        let metadata_size = r.read_u64_order(&be)?;
        let ghost r4 = *r;
        let file_size = r.read_u64_order(&be)?;
        let ghost r5 = *r;
        let offset_first_file = r.read_u64_order(&be)?;
        let ghost r6 = *r;
        let tag = r.read_u8()?;
        let endianness = if tag == 0 {
            Endian::Little
        } else if tag == 1 {
            Endian::Big
        } else {
            assert(d.subrange(40, 41)[0] == d[40]);
            return Err(Error::MalformedInput);
        };
        let ghost r7 = *r;
        r.skip(7)?;
        let h = AssetsFileHeader { version, metadata_size, file_size, offset_first_file, endianness };
        proof {
            lemma_filled_of(d, 0, 8);
            lemma_filled_of(d, 12, 4);
            lemma_filled_of(d, 41, 7);
            assert(seq![endian_byte(endianness)] =~= seq![tag]);
            let a = filled(fill_of(d), 0, 8);
            let b = u32_bytes(version, be);
            let c = filled(fill_of(d), 12, 4);
            let x = u64_bytes(metadata_size, be);
            let y = u64_bytes(file_size, be);
            let z = u64_bytes(offset_first_file, be);
            let t = seq![endian_byte(endianness)];
            let w = filled(fill_of(d), 41, 7);
            lemma_consumed_chain(r0, r1, r2, a, b);
            lemma_consumed_chain(r0, r2, r3, a + b, c);
            lemma_consumed_chain(r0, r3, r4, a + b + c, x);
            lemma_consumed_chain(r0, r4, r5, a + b + c + x, y);
            lemma_consumed_chain(r0, r5, r6, a + b + c + x + y, z);
            lemma_consumed_chain(r0, r6, r7, a + b + c + x + y + z, t);
            lemma_consumed_chain(r0, r7, *r, a + b + c + x + y + z + t, w);
        }
        Ok(h)
    }
}

impl AssetsFileContent {
    /// Reads the content section in byte order `e`; an enabled type tree is refused.
    #[verifier::rlimit(50)]
    pub fn read_from(r: &mut Reader, e: Endian, hint: Ghost<AssetsFileContent>) -> (res: Result<AssetsFileContent, Error>)
        requires
            old(r).wf(),
        ensures
            final(r).wf(),
            final(r).data@ == old(r).data@,
            res matches Ok(c) ==> !c.enable_type_tree.0 && counts_fit(c) && consumed(
                *final(r),
                *old(r),
                ser_content(c, e, old(r).pos as int, fill_of(old(r).data@)),
            ),
            content_wf(hint@) && holds_at(old(r).data@, old(r).pos as int, ser_content(hint@, e, old(r).pos as int, zero_fill()))
                ==> (res is Ok && final(r).pos == old(r).pos + ser_content(hint@, e, old(r).pos as int, zero_fill()).len()),
    {
        let ghost d = r.data@;
        let ghost r0 = *r;
        let ghost fl = fill_of(d);
        let ghost c = hint@;
        let ghost z = zero_fill();
        let ghost p0 = r0.pos as int;
        let ghost good = content_wf(c) && holds_at(d, p0, ser_content(c, e, p0, z));
        let ghost s0 = ser_preamble(c, e, p0, z);
        let ghost q1 = p0 + s0.len();
        let ghost s1 = ser_type_table(c.types@, e, q1, z);
        let ghost q2 = q1 + s1.len();
        let ghost s2 = ser_object_table(c.objects@, e, q2, z);
        let ghost q3 = q2 + s2.len();
        let ghost s3 = ser_script_table(c.script_types@, e, q3, z);
        let ghost q4 = q3 + s3.len();
        let ghost s4 = ser_external_table(c.externals@, e, q4);
        let ghost q5 = q4 + s4.len();
        let ghost s5 = ser_type_table(c.ref_types@, e, q5, z);
        let ghost q6 = q5 + s5.len();
        let ghost s6 = nul_bytes(c.user_information@);
        let ghost n0 = nul_bytes(c.unity_version@);
        assert(good ==> holds_at(d, p0, n0) && holds_at(d, p0 + n0.len(), u32_bytes(c.target, e))
            && holds_at(d, p0 + n0.len() + 4, seq![0u8]) && holds_at(d, q1, s1) && holds_at(d, q2, s2)
            && holds_at(d, q3, s3) && holds_at(d, q4, s4) && holds_at(d, q5, s5) && holds_at(d, q6, s6)) by {
            if good {
                assert(ser_content(c, e, p0, z) == s0 + s1 + s2 + s3 + s4 + s5 + s6);
                lemma_holds_split(d, p0, s0 + s1 + s2 + s3 + s4 + s5, s6);
                lemma_holds_split(d, p0, s0 + s1 + s2 + s3 + s4, s5);
                lemma_holds_split(d, p0, s0 + s1 + s2 + s3, s4);
                lemma_holds_split(d, p0, s0 + s1 + s2, s3);
                lemma_holds_split(d, p0, s0 + s1, s2);
                lemma_holds_split(d, p0, s0, s1);
                assert(s0 =~= n0 + u32_bytes(c.target, e) + seq![0u8]);
                lemma_holds_split(d, p0, n0 + u32_bytes(c.target, e), seq![0u8]);
                lemma_holds_split(d, p0, n0, u32_bytes(c.target, e));
            }
        }
        let unity_version = read_null_string_at(r, Ghost(c.unity_version@))?;
        let ghost r1 = *r;
        let target = r.read_u32_order(&e)?;
        let ghost r2 = *r;
        let enable_type_tree = read_bool(r)?;
        assert(good ==> !enable_type_tree.0) by {
            if good {
                assert(d.subrange(r2.pos as int, r2.pos + 1)[0] == 0u8);
                assert(seq![bool_byte(enable_type_tree.0, fl, r2.pos as int)][0] == bool_byte(enable_type_tree.0, fl, r2.pos as int));
            }
        }
        if enable_type_tree.0 {
            return Err(Error::UnsupportedFormat);
        }
        let ghost r3 = *r;
        let types = read_type_table(r, e, Ghost(hint@.types@))?;
        let ghost r4 = *r;
        let objects = read_object_table(r, e, Ghost(hint@.objects@))?;
        let ghost r5 = *r;
        let script_types = read_script_table(r, e, Ghost(hint@.script_types@))?;
        let ghost r6 = *r;
        let externals = read_external_table(r, e, Ghost(hint@.externals@))?;
        let ghost r7 = *r;
        let ref_types = read_type_table(r, e, Ghost(hint@.ref_types@))?;
        let ghost r8 = *r;
        let user_information = read_null_string_at(r, Ghost(c.user_information@))?;
        let c = AssetsFileContent {
            unity_version,
            target,
            enable_type_tree,
            types,
            objects,
            script_types,
            externals,
            ref_types,
            user_information,
        };
        proof {
            let s0 = ser_preamble(c, e, r0.pos as int, fl);
            lemma_consumed_chain(r0, r1, r2, nul_bytes(c.unity_version@), u32_bytes(target, e));
            lemma_consumed_chain(
                r0,
                r2,
                r3,
                nul_bytes(c.unity_version@) + u32_bytes(target, e),
                seq![bool_byte(enable_type_tree.0, fl, r2.pos as int)],
            );
            assert(s0 =~= nul_bytes(c.unity_version@) + u32_bytes(target, e) + seq![
                bool_byte(enable_type_tree.0, fl, r2.pos as int)]);
            let s1 = ser_type_table(c.types@, e, r3.pos as int, fl);
            lemma_consumed_chain(r0, r3, r4, s0, s1);
            let s2 = ser_object_table(c.objects@, e, r4.pos as int, fl);
            lemma_consumed_chain(r0, r4, r5, s0 + s1, s2);
            let s3 = ser_script_table(c.script_types@, e, r5.pos as int, fl);
            lemma_consumed_chain(r0, r5, r6, s0 + s1 + s2, s3);
            let s4 = ser_external_table(c.externals@, e, r6.pos as int);
            lemma_consumed_chain(r0, r6, r7, s0 + s1 + s2 + s3, s4);
            let s5 = ser_type_table(c.ref_types@, e, r7.pos as int, fl);
            lemma_consumed_chain(r0, r7, r8, s0 + s1 + s2 + s3 + s4, s5);
            lemma_consumed_chain(
                r0,
                r8,
                *r,
                s0 + s1 + s2 + s3 + s4 + s5,
                nul_bytes(c.user_information@),
            );
        }
        Ok(c)
    }
}

impl AssetsFile {
    /// Reads the header and content section at the start of `data`. On success it gives the
    /// file and the number of bytes that those two sections take. It succeeds on every `data`
    /// that starts with the written form of a well-formed file.
    #[verifier::rlimit(100)]
    pub fn read(data: &[u8]) -> (res: Result<(AssetsFile, usize), Error>)
        ensures
            res matches Ok((f, n)) ==> {
                &&& n <= data@.len()
                &&& data@.subrange(0, n as int) == ser_file(f, fill_of(data@))
                &&& f.header.version == SUPPORTED_VERSION
                &&& !f.content.enable_type_tree.0
                &&& counts_fit(f.content)
            },
            data@.len() < 12 ==> res == Err::<(AssetsFile, usize), Error>(Error::MalformedInput),
            data@.len() >= 12 && data@.subrange(8, 12) != u32_bytes(
                SUPPORTED_VERSION,
                Endian::Big,
            ) ==> res == Err::<(AssetsFile, usize), Error>(Error::UnsupportedFormat),
            (exists|f: AssetsFile| file_wf(f) && holds_at(data@, 0, #[trigger] written_file(f)))
                ==> res is Ok,
    {
        let ghost good = exists|f: AssetsFile| file_wf(f) && holds_at(data@, 0, #[trigger] written_file(f));
        let ghost f = choose|f: AssetsFile| file_wf(f) && holds_at(data@, 0, #[trigger] written_file(f));
        proof {
            if good {
                lemma_written_start(data@, f);
            }
        }
        let mut r = Reader::new(vstd::slice::slice_to_vec(data));
        let ghost r0 = r;
        let header = AssetsFileHeader::read_from(&mut r)?;
        let ghost r1 = r;
        assert(good ==> header.endianness == f.header.endianness && r.pos == 48) by {
            if good {
                lemma_written_start(data@, f);
                assert(ser_header(header, fill_of(data@))[40] == data@[40]);
            }
        }
        let content = AssetsFileContent::read_from(&mut r, header.endianness, Ghost(f.content))?;
        let f = AssetsFile { header, content };
        proof {
            lemma_consumed_chain(
                r0,
                r1,
                r,
                ser_header(header, fill_of(data@)),
                ser_content(content, header.endianness, r1.pos as int, fill_of(data@)),
            );
        }
        Ok((f, r.pos))
    }
}

proof fn lemma_written_start(data: Seq<u8>, f: AssetsFile)
    requires
        file_wf(f),
        holds_at(data, 0, written_file(f)),
    ensures
        holds_at(data, 0, ser_header(f.header, zero_fill())),
        holds_at(data, HEADER_LEN as int, ser_content(f.content, f.header.endianness, HEADER_LEN as int, zero_fill())),
        data.len() >= HEADER_LEN,
        data.subrange(8, 12) == u32_bytes(SUPPORTED_VERSION, Endian::Big),
        data[40] == endian_byte(f.header.endianness),
{
    let hh = ser_header(f.header, zero_fill());
    let cc = ser_content(f.content, f.header.endianness, HEADER_LEN as int, zero_fill());
    lemma_holds_split(data, 0, hh, cc);
    assert(data.subrange(8, 12) =~= hh.subrange(8, 12));
    assert(hh.subrange(8, 12) =~= u32_bytes(f.header.version, Endian::Big));
    assert(data[40] == data.subrange(0, 48)[40]);
}



impl AssetsFile {
    /// Pairs every object with the class id of its type.
    pub fn resolve_object_classes(&self) -> (res: Result<Vec<ResolvedObjectInfo>, Error>)
        ensures
            res is Ok <==> forall|i: int|
                0 <= i < self.content.objects@.len() ==> 0 <= (
                #[trigger] self.content.objects@[i]).type_id < self.content.types@.len(),
            res matches Ok(v) ==> v@.len() == self.content.objects@.len() && forall|i: int|
                0 <= i < v@.len() ==> {
                    let o = self.content.objects@[i];
                    #[trigger] v@[i] == ResolvedObjectInfo {
                        path_id: o.path_id,
                        byte_start: o.byte_start,
                        byte_size: o.byte_size,
                        class_id: self.content.types@[o.type_id as int].class_id,
                    }
                },
            res matches Err(e) ==> e == Error::MalformedInput,
    {
        let types = &self.content.types;
        let objects = &self.content.objects;
        let mut out: Vec<ResolvedObjectInfo> = Vec::new();
        let mut i: usize = 0;
        while i < objects.len()
            invariant
                objects@ == self.content.objects@,
                types@ == self.content.types@,
                i <= objects@.len(),
                out@.len() == i,
                forall|j: int|
                    0 <= j < i ==> 0 <= (#[trigger] objects@[j]).type_id < types@.len(),
                forall|j: int|
                    0 <= j < i ==> {
                        let o = objects@[j];
                        #[trigger] out@[j] == ResolvedObjectInfo {
                            path_id: o.path_id,
                            byte_start: o.byte_start,
                            byte_size: o.byte_size,
                            class_id: types@[o.type_id as int].class_id,
                        }
                    },
            decreases objects@.len() - i,
        {
            let o = objects[i];
            if o.type_id < 0 || o.type_id as usize >= types.len() {
                assert(!(0 <= objects@[i as int].type_id < types@.len()));
                assert(!(forall|k: int|
                    0 <= k < self.content.objects@.len() ==> 0 <= (
                    #[trigger] self.content.objects@[k]).type_id < self.content.types@.len()));
                return Err(Error::MalformedInput);
            }
            out.push(
                ResolvedObjectInfo {
                    path_id: o.path_id,
                    byte_start: o.byte_start,
                    byte_size: o.byte_size,
                    class_id: types[o.type_id as usize].class_id,
                },
            );
            i = i + 1;
        }
        Ok(out)
    }

    /// The byte order of the content section.
    pub fn endian(&self) -> (e: Endian)
        ensures
            e == self.header.endianness,
    {
        self.header.endianness
    }
}

/// How a length-prefixed string is padded: to a multiple of `alignment`.
#[derive(Debug, Clone, Copy, PartialEq, Eq, Structural)]
pub struct AlignmentArgs {
    pub alignment: u32,
}

impl AlignmentArgs {
    pub fn new(alignment: u32) -> (r: AlignmentArgs)
        ensures
            r.alignment == alignment,
    {
        AlignmentArgs { alignment }
    }
}

impl Default for AlignmentArgs {
    fn default() -> (r: AlignmentArgs)
        ensures
            r.alignment == 4,
    {
        AlignmentArgs { alignment: 4 }
    }
}

/// A `u32`-length-prefixed UTF-8 string followed by padding.
#[derive(Debug, Clone)]
pub struct AlignedString(pub String);

impl AlignedString {
    /// Appends the byte length, the UTF-8 bytes, then zero bytes until the length of `out`
    /// is a multiple of `args.alignment`.
    pub fn write_to(&self, e: Endian, args: AlignmentArgs, out: &mut Vec<u8>)
        requires
            args.alignment > 0,
            vstd::utf8::encode_utf8(self.0@).len() <= u32::MAX,
        ensures
            ({
                let b = vstd::utf8::encode_utf8(self.0@);
                final(out)@ == old(out)@ + u32_bytes(b.len() as u32, e) + b + zeros(
                    pad_len(old(out)@.len() + 4 + b.len() as int, args.alignment as int),
                )
            }),
    {
        let b = self.0.as_str().as_bytes();
        out.write_u32_order(&e, b.len() as u32);
        out.write_bytes(b);
        out.align(args.alignment as u64);
    }
}

} // verus!
