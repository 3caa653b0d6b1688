use papers_tools::assets::{
    AssetsFile, AssetsFileContent, AssetsFileHeader, FileIdentifier, ObjectInfo, ScriptType,
    SerializedType, U8Bool,
};
use papers_tools::audio::{AudioClip, AudioCompressionFormat, StreamedResource};
use papers_tools::binio::{Endian, Reader};
use papers_tools::error::Error;
use papers_tools::repack::{
    locate_art, plan_audio_patches, read_audio_clips, relayout_objects, repack_image, ClipPatch,
    Replacement,
};

const OFF: u64 = 1024;

fn stype(class_id: i32) -> SerializedType {
    SerializedType {
        class_id,
        is_stripped_type: U8Bool(false),
        script_type_index: 0xffff,
        script_id: if class_id == 114 { Some(vec![7u8; 16]) } else { None },
        old_type_hash: vec![class_id as u8; 16],
    }
}

fn object(path_id: i64, byte_start: u64, byte_size: u32, type_id: i32) -> ObjectInfo {
    ObjectInfo { path_id, byte_start, byte_size, type_id }
}

fn model(endianness: Endian) -> AssetsFile {
    AssetsFile {
        header: AssetsFileHeader {
            version: 22,
            metadata_size: 300,
            file_size: OFF + 360,
            offset_first_file: OFF,
            endianness,
        },
        content: AssetsFileContent {
            unity_version: b"2019.4.0f1".to_vec(),
            target: 19,
            enable_type_tree: U8Bool(false),
            types: vec![stype(49), stype(114), stype(1)],
            objects: vec![object(1, 0, 100, 2), object(2, 104, 52, 0), object(3, 160, 200, 2)],
            script_types: vec![ScriptType { local_serialized_file_index: 1, local_identifier_in_file: 5 }],
            externals: vec![FileIdentifier {
                temp_empty: vec![],
                guid: vec![1u8; 16],
                file_type: 0,
                path: b"library/unity default resources".to_vec(),
            }],
            ref_types: vec![],
            user_information: vec![],
        },
    }
}

fn art_payload() -> Vec<u8> {
    (0..34u8).map(|i| i.wrapping_mul(7)).collect()
}

fn fixture(endianness: Endian) -> Vec<u8> {
    let mut out = model(endianness).write();
    out.resize(OFF as usize, 0);
    out.extend((0..100u32).map(|i| (i + 1) as u8));
    out.resize((OFF + 104) as usize, 0);
    let le = endianness == Endian::Little;
    let u32b = |v: u32| if le { v.to_le_bytes() } else { v.to_be_bytes() };
    out.extend_from_slice(&u32b(7));
    out.extend_from_slice(b"Art.dat");
    out.push(0);
    out.extend_from_slice(&u32b(34));
    out.extend(art_payload());
    out.resize((OFF + 160) as usize, 0);
    out.extend((0..200u32).map(|i| (i % 13) as u8 + 100));
    out
}

#[test]
fn write_then_read_is_identity() {
    for e in [Endian::Little, Endian::Big] {
        let bytes = fixture(e);
        let (f, n) = AssetsFile::read(&bytes).unwrap();
        assert_eq!(f.header, model(e).header);
        assert_eq!(f.content.objects, model(e).content.objects);
        assert_eq!(f.write(), bytes[..n].to_vec());
    }
}

#[test]
fn header_is_big_endian() {
    let bytes = fixture(Endian::Little);
    assert_eq!(&bytes[0..8], &[0u8; 8]);
    assert_eq!(&bytes[8..12], &[0, 0, 0, 22]);
    assert_eq!(&bytes[24..32], &(OFF + 360).to_be_bytes());
    assert_eq!(&bytes[32..40], &OFF.to_be_bytes());
    assert_eq!(bytes[40], 0);
}

#[test]
fn read_rejects_other_versions_and_type_trees() {
    let mut bytes = fixture(Endian::Little);
    bytes[11] = 21;
    assert_eq!(AssetsFile::read(&bytes).unwrap_err(), Error::UnsupportedFormat);
    let mut m = model(Endian::Little);
    m.content.enable_type_tree = U8Bool(true);
    assert_eq!(AssetsFile::read(&m.write()).unwrap_err(), Error::UnsupportedFormat);
    let bytes = fixture(Endian::Little);
    assert_eq!(AssetsFile::read(&bytes[..30]).unwrap_err(), Error::MalformedInput);
    assert_eq!(AssetsFile::read(&bytes[..10]).unwrap_err(), Error::MalformedInput);
}

#[test]
fn object_classes_resolve() {
    let classes: Vec<i32> = model(Endian::Little)
        .resolve_object_classes()
        .unwrap()
        .iter()
        .map(|o| o.class_id)
        .collect();
    assert_eq!(classes, vec![1, 49, 1]);
    let mut m = model(Endian::Little);
    m.content.objects[0].type_id = 3;
    assert_eq!(m.resolve_object_classes(), Err(Error::MalformedInput));
}

#[test]
fn finds_art_object() {
    let bytes = fixture(Endian::Big);
    let (f, _) = AssetsFile::read(&bytes).unwrap();
    let (id, art) = locate_art(&bytes, &f).unwrap();
    assert_eq!(id, 2);
    assert_eq!(art, art_payload());
}

#[test]
fn repack_without_changes_is_identity() {
    for e in [Endian::Little, Endian::Big] {
        let bytes = fixture(e);
        let (f, _) = AssetsFile::read(&bytes).unwrap();
        let (id, art) = locate_art(&bytes, &f).unwrap();
        let out = repack_image(&bytes, f, id, &art, &vec![]).unwrap();
        assert_eq!(out.len() as u64, OFF + 360);
        assert_eq!(out, bytes);
    }
}

#[test]
fn repack_places_new_art_and_moves_objects() {
    let bytes = fixture(Endian::Little);
    let (f, _) = AssetsFile::read(&bytes).unwrap();
    let art = vec![9u8; 3];
    let out = repack_image(&bytes, f, 2, &art, &vec![]).unwrap();
    let (g, _) = AssetsFile::read(&out).unwrap();
    let starts: Vec<u64> = g.content.objects.iter().map(|o| o.byte_start).collect();
    let sizes: Vec<u32> = g.content.objects.iter().map(|o| o.byte_size).collect();
    assert_eq!(starts, vec![0, 104, 128]);
    assert_eq!(sizes, vec![100, 20, 200]);
    assert_eq!(g.header.file_size, OFF + 328);
    assert_eq!(out.len() as u64, OFF + 328);
    assert_eq!(&out[(OFF + 128) as usize..], &bytes[(OFF + 160) as usize..]);
    assert_eq!(locate_art(&out, &g).unwrap(), (2, art));
}

#[test]
fn offsets_are_recomputed() {
    let objs = vec![object(10, 0, 7, 0), object(11, 8, 9, 0), object(12, 20, 12, 0)];
    let (v, end) = relayout_objects(&objs, 10, 21).unwrap();
    let starts: Vec<u64> = v.iter().map(|o| o.byte_start).collect();
    let sizes: Vec<u32> = v.iter().map(|o| o.byte_size).collect();
    assert_eq!(starts, vec![0, 40, 56]);
    assert_eq!(sizes, vec![40, 12, 12]);
    assert_eq!(end, 72);
    assert!(v.iter().all(|o| o.byte_start % 8 == 0));
}

#[test]
fn relayout_rejects_oversized_art() {
    let objs = vec![object(10, 0, 7, 0)];
    assert_eq!(relayout_objects(&objs, 10, u32::MAX as u64), Err(Error::IntegrityError));
}

#[test]
fn repack_rejects_missing_object_bytes() {
    let bytes = fixture(Endian::Little);
    let (f, _) = AssetsFile::read(&bytes).unwrap();
    let short = bytes[..(OFF + 300) as usize].to_vec();
    assert_eq!(repack_image(&short, f, 2, &art_payload(), &vec![]), Err(Error::IntegrityError));
}

fn clip(name: &[u8]) -> AudioClip {
    AudioClip {
        object_name: name.to_vec(),
        load_type: 1,
        channels: 2,
        frequency: 44100,
        bits_per_sample: 16,
        length: 1.5f32.to_bits(),
        is_tracker_format: U8Bool(false),
        subsound_index: 0,
        preload_audio_data: U8Bool(true),
        load_in_background: U8Bool(false),
        legacy3d: U8Bool(true),
        resource: StreamedResource {
            source: b"archive:/CAB-0123/CAB-0123.resource".to_vec(),
            offset: 64,
            size: 1000,
        },
        compression_format: AudioCompressionFormat::Vorbis,
    }
}

#[test]
fn audio_clip_round_trip() {
    let c = clip(b"music");
    let mut out = vec![0u8; 3];
    c.write_to(Endian::Little, &mut out);
    assert_eq!(&out[3..7], &5u32.to_le_bytes());
    assert_eq!(&out[7..12], b"music");
    assert_eq!(out.len() % 4, 0);
    let mut r = Reader::new(out.clone());
    r.pos = 3;
    let back = AudioClip::read_from(&mut r, Endian::Little).unwrap();
    assert_eq!(r.pos, out.len());
    assert_eq!(back.object_name, c.object_name);
    assert_eq!(f32::from_bits(back.length), 1.5f32);
    assert_eq!(back.resource.source, c.resource.source);
    assert_eq!(back.compression_format, AudioCompressionFormat::Vorbis);
    let mut bad = out.clone();
    let n = bad.len();
    bad[n - 4..].copy_from_slice(&10u32.to_le_bytes());
    let mut r = Reader::new(bad);
    r.pos = 3;
    assert_eq!(AudioClip::read_from(&mut r, Endian::Little).unwrap_err(), Error::MalformedInput);
}

fn patch_for(name: &[u8], frequency: i32) -> ClipPatch {
    ClipPatch {
        object_name: name.to_vec(),
        load_type: 0,
        channels: 1,
        frequency,
        bits_per_sample: 16,
        length: 2.0f32.to_bits(),
        is_tracker_format: false,
        subsound_index: 0,
        preload_audio_data: false,
        load_in_background: true,
        legacy3d: false,
        compression_format: AudioCompressionFormat::PCM,
    }
}

#[test]
fn audio_patches_point_at_modded_resource() {
    let clips = vec![
        Replacement { path_id: 5, clip: clip(b"a") },
        Replacement { path_id: 6, clip: clip(b"b") },
    ];
    let patches = vec![patch_for(b"b", 22050), patch_for(b"a", 11025)];
    let v = plan_audio_patches(&clips, &patches, &vec![100, 50]).unwrap();
    assert_eq!(v.len(), 2);
    assert_eq!(v[1].path_id, 6);
    assert_eq!(v[1].clip.frequency, 22050);
    assert_eq!(v[1].clip.resource.offset, 0);
    assert_eq!(v[1].clip.resource.size, 100);
    assert_eq!(v[0].path_id, 5);
    assert_eq!(v[0].clip.resource.offset, 100);
    assert_eq!(v[0].clip.resource.size, 50);
    assert_eq!(v[0].clip.resource.source, b"modded_assets0.resource".to_vec());
    let missing = vec![patch_for(b"c", 1)];
    assert_eq!(plan_audio_patches(&clips, &missing, &vec![1]).unwrap_err(), Error::InputError);
}

#[test]
fn repack_pads_to_declared_size() {
    let mut m = model(Endian::Little);
    m.content.objects = vec![object(1, 0, 12, 2)];
    m.header.file_size = OFF + 12;
    let mut bytes = m.write();
    bytes.resize(OFF as usize, 0);
    bytes.extend((1..=12u8).collect::<Vec<u8>>());
    let (f, _) = AssetsFile::read(&bytes).unwrap();
    let out = repack_image(&bytes, f, 999, &[], &vec![]).unwrap();
    let (g, _) = AssetsFile::read(&out).unwrap();
    assert_eq!(g.header.file_size, OFF + 16);
    assert_eq!(out.len() as u64, OFF + 16);
    assert_eq!(&out[(OFF + 12) as usize..], &[0u8, 0, 0, 0]);
}

#[test]
fn audio_clips_are_read_per_object() {
    let mut m = model(Endian::Little);
    m.content.types.push(stype(83));
    m.content.objects = vec![object(1, 0, 100, 2), object(7, 104, 96, 3)];
    let mut bytes = m.write();
    bytes.resize(OFF as usize, 0);
    bytes.extend(vec![5u8; 100]);
    bytes.resize((OFF + 104) as usize, 0);
    clip(b"theme").write_to(Endian::Little, &mut bytes);
    let (f, _) = AssetsFile::read(&bytes).unwrap();
    let found = read_audio_clips(&bytes, &f).unwrap();
    assert_eq!(found.len(), 2);
    assert!(found[0].is_none());
    assert_eq!(found[1].as_ref().unwrap().object_name, b"theme".to_vec());
    let mut bad = bytes.clone();
    bad[(OFF + 104 + 4) as usize] = 0xff;
    let (f, _) = AssetsFile::read(&bad).unwrap();
    assert_eq!(read_audio_clips(&bad, &f).unwrap_err(), Error::MalformedInput);
}
