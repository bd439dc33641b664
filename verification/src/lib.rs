//! Pixel transforms for building recoloured texture packs: colour
//! quantisation by k-means, error-diffusing depth reduction, and a handful of
//! whole-image filters, together with the plain records that describe a
//! release listing and a pack's metadata.

use vstd::prelude::*;

pub mod color;
pub mod dither;
pub mod filters;
pub mod k_means;

verus! {

/// The newest release and snapshot that a listing advertises.
#[derive(Clone, Debug)]
pub struct Latest {
    pub release: String,
    pub snapshot: String,
}

/// One entry of a release listing.
#[derive(Clone, Debug)]
pub struct Version {
    pub id: String,
    pub kind: String,
    pub url: String,
    pub time: String,
    pub release_time: String,
    pub sha1: String,
    pub compliance_level: u32,
}

/// A release listing: its entries come newest first.
#[derive(Clone, Debug)]
pub struct Manifest {
    pub latest: Latest,
    pub versions: Vec<Version>,
}

/// Where the index of a version's assets is found.
#[derive(Clone, Debug)]
pub struct AssetIndex {
    pub id: String,
    pub sha1: String,
    pub size: u64,
    pub total_size: u64,
    pub url: String,
}

/// One downloadable file of a version.
#[derive(Clone, Debug)]
pub struct DownloadInfo {
    pub sha1: String,
    pub size: u64,
    pub url: String,
}

/// The downloadable files of a version.
#[derive(Clone, Debug)]
pub struct Downloads {
    pub client: DownloadInfo,
    pub client_mappings: DownloadInfo,
    pub server: DownloadInfo,
    pub server_mappings: DownloadInfo,
}

/// What a listing entry's own document says of its version.
#[derive(Clone, Debug)]
pub struct VersionMeta {
    pub asset_index: AssetIndex,
    pub downloads: Downloads,
}

/// The inclusive range of pack formats that a pack declares support for.
#[derive(Clone, Debug)]
pub struct SupportedFormats {
    pub min_inclusive: u32,
    pub max_inclusive: u32,
}

/// The description of a pack and the formats it is made for.
#[derive(Clone, Debug)]
pub struct Pack<'a> {
    pub description: &'a str,
    pub pack_format: u32,
    pub supported_formats: SupportedFormats,
}

/// The contents of a pack's `pack.mcmeta`.
#[derive(Clone, Debug)]
pub struct PackMcMeta<'a> {
    pub pack: Pack<'a>,
}

/// The pack format that generated packs declare.
pub const PACK_FORMAT: u32 = 64;

/// The oldest pack format that generated packs still claim to support.
pub const OLDEST_PACK_FORMAT: u32 = 3;

/// Whether `kind` marks a listing entry as a full release.
pub open spec fn is_release_kind(kind: Seq<char>) -> bool {
    kind == "release"@
}

/// Whether `i` is the position of the first full release in `versions`.
pub open spec fn is_first_release(versions: Seq<Version>, i: int) -> bool {
    &&& 0 <= i < versions.len()
    &&& is_release_kind(versions[i].kind@)
    &&& forall|j: int| 0 <= j < i ==> !is_release_kind(#[trigger] versions[j].kind@)
}

/// `name` ends in `suffix`.
pub open spec fn has_suffix(name: Seq<u8>, suffix: Seq<u8>) -> bool {
    name.len() >= suffix.len() && name.subrange(name.len() - suffix.len(), name.len() as int)
        == suffix
}

/// The bytes of `.png`.
pub open spec fn png_suffix() -> Seq<u8> {
    seq![0x2eu8, 0x70u8, 0x6eu8, 0x67u8]
}

/// The bytes of `pack.png`, the name of a pack's icon.
pub open spec fn pack_icon_name() -> Seq<u8> {
    seq![0x70u8, 0x61u8, 0x63u8, 0x6bu8, 0x2eu8, 0x70u8, 0x6eu8, 0x67u8]
}

/// Whether `name` ends in `suffix`.
pub fn ends_with(name: &[u8], suffix: &[u8]) -> (ends: bool)
    ensures
        ends == has_suffix(name@, suffix@),
{
    if name.len() < suffix.len() {
        return false;
    }
    let start = name.len() - suffix.len();
    let mut i: usize = 0;
    while i < suffix.len()
        invariant
            i <= suffix@.len(),
            start + suffix@.len() == name@.len(),
            name@.len() <= usize::MAX,
            forall|t: int| 0 <= t < i ==> name@[start + t] == suffix@[t],
        decreases suffix@.len() - i,
    {
        if name[start + i] != suffix[i] {
            proof {
                let tail = name@.subrange(start as int, name@.len() as int);
                assert(tail[i as int] != suffix@[i as int]);
            }
            return false;
        }
        i += 1;
    }
    proof {
        assert(name@.subrange(start as int, name@.len() as int) =~= suffix@);
    }
    true
}

/// Whether a file name is that of a PNG image: whether it ends in `.png`.
pub fn is_png_name(name: &[u8]) -> (png: bool)
    ensures
        png == has_suffix(name@, png_suffix()),
{
    let suffix: [u8; 4] = [0x2e, 0x70, 0x6e, 0x67];
    proof {
        assert(suffix@ =~= png_suffix());
    }
    ends_with(name, suffix.as_slice())
}

/// Whether a file name is that of a pack's icon, `pack.png`, which goes to
/// the top of a pack and not among its textures.
pub fn is_pack_icon(name: &[u8]) -> (icon: bool)
    ensures
        icon == (name@ == pack_icon_name()),
{
    let wanted: [u8; 8] = [0x70, 0x61, 0x63, 0x6b, 0x2e, 0x70, 0x6e, 0x67];
    proof {
        assert(wanted@ =~= pack_icon_name());
        if name@.len() == 8 {
            assert(name@.subrange(0, 8) =~= name@);
        }
    }
    name.len() == wanted.len() && ends_with(name, wanted.as_slice())
}

impl Manifest {
    /// The position of the first entry whose kind is `release`, if the
    /// listing has one.
    pub fn first_release(&self) -> (found: Option<usize>)
        ensures
            match found {
                Some(i) => is_first_release(self.versions@, i as int),
                None => forall|j: int|
                    0 <= j < self.versions@.len() ==> !is_release_kind(
                        #[trigger] self.versions@[j].kind@,
                    ),
            },
    {
        let wanted = "release".to_owned();
        let mut i: usize = 0;
        while i < self.versions.len()
            invariant
                i <= self.versions.len(),
                wanted@ == "release"@,
                forall|j: int| 0 <= j < i ==> !is_release_kind(#[trigger] self.versions@[j].kind@),
            decreases self.versions.len() - i,
        {
            if self.versions[i].kind == wanted {
                return Some(i);
            }
            i += 1;
        }
        None
    }
}

impl<'a> PackMcMeta<'a> {
    /// The metadata record of a generated pack with the given description.
    pub fn new(description: &'a str) -> (meta: PackMcMeta<'a>)
        ensures
            meta.pack.description == description,
            meta.pack.pack_format == PACK_FORMAT,
            meta.pack.supported_formats.min_inclusive == OLDEST_PACK_FORMAT,
            meta.pack.supported_formats.max_inclusive == PACK_FORMAT,
    {
        PackMcMeta {
            pack: Pack {
                description,
                pack_format: PACK_FORMAT,
                supported_formats: SupportedFormats {
                    min_inclusive: OLDEST_PACK_FORMAT,
                    max_inclusive: PACK_FORMAT,
                },
            },
        }
    }
}

} // verus!
