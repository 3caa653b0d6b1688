use vstd::prelude::*;
use crate::error::Error;

verus! {

/// What a patch file does to the unpacked file at the same path.
#[derive(Debug, Clone, Copy, PartialEq, Eq, Structural)]
pub enum PatchAction {
    /// The patch file takes the place of the unpacked one.
    Replace,
    /// The patch file is merged into the unpacked one as XML.
    Merge,
}

/// What kind of file an input or output path names.
#[derive(Debug, Clone, Copy, PartialEq, Eq, Structural)]
pub enum FileKind {
    /// An Art.dat container (`.dat` or `.txt`).
    ArtDat,
    /// A serialized-asset container (`.assets`).
    Assets,
}

pub open spec fn ext_png() -> Seq<u8> {
    seq![0x70u8, 0x6eu8, 0x67u8]
}

pub open spec fn ext_csv() -> Seq<u8> {
    seq![0x63u8, 0x73u8, 0x76u8]
}

pub open spec fn ext_txt() -> Seq<u8> {
    seq![0x74u8, 0x78u8, 0x74u8]
}

pub open spec fn ext_xml() -> Seq<u8> {
    seq![0x78u8, 0x6du8, 0x6cu8]
}

pub open spec fn ext_fnt() -> Seq<u8> {
    seq![0x66u8, 0x6eu8, 0x74u8]
}

pub open spec fn ext_dat() -> Seq<u8> {
    seq![0x64u8, 0x61u8, 0x74u8]
}

pub open spec fn ext_assets() -> Seq<u8> {
    seq![0x61u8, 0x73u8, 0x73u8, 0x65u8, 0x74u8, 0x73u8]
}

fn same(a: &[u8], b: &[u8]) -> (r: bool)
    ensures
        r <==> a@ == b@,
{
    if a.len() != b.len() {
        return false;
    }
    let mut i: usize = 0;
    while i < a.len()
        invariant
            a@.len() == b@.len(),
            i <= a@.len(),
            forall|j: int| 0 <= j < i ==> a@[j] == b@[j],
        decreases a@.len() - i,
    {
        if a[i] != b[i] {
            return false;
        }
        i = i + 1;
    }
    assert(a@ =~= b@);
    true
}

/// The action for a patch file with extension `ext`: `png`, `csv` and `txt` replace, `xml`
/// and `fnt` merge, anything else is refused.
pub fn patch_action(ext: &[u8]) -> (r: Result<PatchAction, Error>)
    ensures
        r == (if ext@ == ext_png() || ext@ == ext_csv() || ext@ == ext_txt() {
            Ok::<PatchAction, Error>(PatchAction::Replace)
        } else if ext@ == ext_xml() || ext@ == ext_fnt() {
            Ok(PatchAction::Merge)
        } else {
            Err(Error::UnsupportedFormat)
        }),
{
    let png: Vec<u8> = vec![0x70u8, 0x6eu8, 0x67u8];
    let csv: Vec<u8> = vec![0x63u8, 0x73u8, 0x76u8];
    let txt: Vec<u8> = vec![0x74u8, 0x78u8, 0x74u8];
    let xml: Vec<u8> = vec![0x78u8, 0x6du8, 0x6cu8];
    let fnt: Vec<u8> = vec![0x66u8, 0x6eu8, 0x74u8];
    assert(png@ =~= ext_png() && csv@ =~= ext_csv() && txt@ =~= ext_txt());
    assert(xml@ =~= ext_xml() && fnt@ =~= ext_fnt());
    if same(ext, png.as_slice()) || same(ext, csv.as_slice()) || same(ext, txt.as_slice()) {
        Ok(PatchAction::Replace)
    } else if same(ext, xml.as_slice()) || same(ext, fnt.as_slice()) {
        Ok(PatchAction::Merge)
    } else {
        Err(Error::UnsupportedFormat)
    }
}

/// The kind of file named by extension `ext`: `dat` and `txt` are Art.dat, `assets` is an
/// AssetsFile when `assets_allowed`, anything else is refused.
pub fn file_kind(ext: &[u8], assets_allowed: bool) -> (r: Result<FileKind, Error>)
    ensures
        r == (if ext@ == ext_dat() || ext@ == ext_txt() {
            Ok::<FileKind, Error>(FileKind::ArtDat)
        } else if assets_allowed && ext@ == ext_assets() {
            Ok(FileKind::Assets)
        } else {
            Err(Error::InputError)
        }),
{
    let dat: Vec<u8> = vec![0x64u8, 0x61u8, 0x74u8];
    let txt: Vec<u8> = vec![0x74u8, 0x78u8, 0x74u8];
    let assets: Vec<u8> = vec![0x61u8, 0x73u8, 0x73u8, 0x65u8, 0x74u8, 0x73u8];
    assert(dat@ =~= ext_dat() && txt@ =~= ext_txt() && assets@ =~= ext_assets());
    if same(ext, dat.as_slice()) || same(ext, txt.as_slice()) {
        Ok(FileKind::ArtDat)
    } else if assets_allowed && same(ext, assets.as_slice()) {
        Ok(FileKind::Assets)
    } else {
        Err(Error::InputError)
    }
}

} // verus!
