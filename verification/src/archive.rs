//! The formats of archives, and what is asked of one.
use crate::codecs::{Level, Method};
use crate::crypto::{Encryption, Password};
use crate::utils::error::UnknownFormat;
use vstd::prelude::*;
use vstd::string::*;

verus! {

/// A format this crate can read, and usually write.
///
/// [`ArchiveType::all`] lists them all.
#[derive(Debug, Clone, Copy, PartialEq, Eq, Structural)]
#[non_exhaustive]
pub enum ArchiveType {
    /// PKWARE ZIP.
    Zip,
    /// A plain, uncompressed tar.
    Tar,
    /// A tar compressed with gzip.
    TarGz,
    /// A tar compressed with bzip2.
    TarBz2,
    /// A tar compressed with xz.
    TarXz,
    /// A tar compressed with Zstandard.
    TarZst,
    /// A tar compressed with raw LZMA.
    TarLzma,
    /// A tar compressed with Unix compress. Read only.
    TarZ,
    /// A tar compressed with lzip.
    TarLz,
    /// 7-Zip.
    SevenZ,
}

/// What a tarball is compressed with.
#[derive(Debug, Clone, Copy, PartialEq, Eq, Structural)]
#[non_exhaustive]
pub enum Wrapper {
    /// Nothing.
    Plain,
    /// gzip.
    Gzip,
    /// bzip2.
    Bzip2,
    /// xz.
    Xz,
    /// Zstandard.
    Zstd,
    /// Raw LZMA.
    Lzma,
    /// Unix compress.
    Compress,
    /// lzip.
    Lzip,
}

impl Wrapper {
    /// Whether this build can write this wrapper, not just read it.
    pub fn can_write(self) -> (r: bool)
        ensures
            r == !(self is Compress),
    {
        match self {
            Wrapper::Compress => false,
            _ => true,
        }
    }
}

/// Which kind of archive a format is.
#[derive(Debug, Clone, Copy, PartialEq, Eq, Structural)]
pub enum Dispatch {
    /// A ZIP.
    Zip,
    /// A 7z.
    SevenZ,
    /// A tar, compressed or not.
    Tarball(Wrapper),
}

/// Which kind of archive a format is.
pub open spec fn dispatch_of(t: ArchiveType) -> Dispatch {
    match t {
        ArchiveType::Zip => Dispatch::Zip,
        ArchiveType::SevenZ => Dispatch::SevenZ,
        ArchiveType::Tar => Dispatch::Tarball(Wrapper::Plain),
        ArchiveType::TarGz => Dispatch::Tarball(Wrapper::Gzip),
        ArchiveType::TarBz2 => Dispatch::Tarball(Wrapper::Bzip2),
        ArchiveType::TarXz => Dispatch::Tarball(Wrapper::Xz),
        ArchiveType::TarZst => Dispatch::Tarball(Wrapper::Zstd),
        ArchiveType::TarLzma => Dispatch::Tarball(Wrapper::Lzma),
        ArchiveType::TarZ => Dispatch::Tarball(Wrapper::Compress),
        ArchiveType::TarLz => Dispatch::Tarball(Wrapper::Lzip),
    }
}

/// A character's number, that of a capital letter of ASCII being that of the
/// small one.
pub open spec fn lower(c: char) -> u32 {
    if 65 <= c as u32 <= 90 {
        (c as u32 + 32) as u32
    } else {
        c as u32
    }
}

/// A name in small letters.
pub open spec fn lowered(s: Seq<char>) -> Seq<u32> {
    Seq::new(s.len(), |i: int| lower(s[i]))
}

/// Whether a name ends in `tail`, and has more than that before it where
/// `more` says so.
pub open spec fn has_suffix(n: Seq<u32>, tail: Seq<u32>, more: bool) -> bool {
    &&& n.len() >= tail.len()
    &&& more ==> n.len() > tail.len()
    &&& n.skip(n.len() - tail.len()) == tail
}

/// Where the last dot stands among the first `k` characters.
pub open spec fn last_dot(n: Seq<u32>, k: int) -> Option<int>
    decreases k,
{
    if k <= 0 {
        None
    } else if n[k - 1] == 46 {
        Some(k - 1)
    } else {
        last_dot(n, k - 1)
    }
}

/// Whether a name is that of a volume of a 7z set.
pub open spec fn is_volume(n: Seq<u32>) -> bool {
    last_dot(n, n.len() as int) matches Some(i) && n.len() - (i + 1) >= 3 && (forall|k: int|
        i < k < n.len() ==> 48 <= #[trigger] n[k] <= 57) && has_suffix(
        n.take(i),
        lowered(".7z"@),
        false,
    )
}

/// The suffixes of tarballs, and what they mean.
pub open spec fn tarball_at(i: int) -> (Seq<char>, ArchiveType) {
    if i == 0 {
        (".tar.gz"@, ArchiveType::TarGz)
    } else if i == 1 {
        (".tar.gzip"@, ArchiveType::TarGz)
    } else if i == 2 {
        (".tar.bz2"@, ArchiveType::TarBz2)
    } else if i == 3 {
        (".tar.bz"@, ArchiveType::TarBz2)
    } else if i == 4 {
        (".tar.xz"@, ArchiveType::TarXz)
    } else if i == 5 {
        (".tar.zst"@, ArchiveType::TarZst)
    } else if i == 6 {
        (".tar.zstd"@, ArchiveType::TarZst)
    } else if i == 7 {
        (".tar.lzma"@, ArchiveType::TarLzma)
    } else if i == 8 {
        (".tar.lz"@, ArchiveType::TarLz)
    } else if i == 9 {
        (".tar.z"@, ArchiveType::TarZ)
    } else if i == 10 {
        (".tgz"@, ArchiveType::TarGz)
    } else if i == 11 {
        (".taz"@, ArchiveType::TarGz)
    } else if i == 12 {
        (".tbz2"@, ArchiveType::TarBz2)
    } else if i == 13 {
        (".tbz"@, ArchiveType::TarBz2)
    } else if i == 14 {
        (".tb2"@, ArchiveType::TarBz2)
    } else if i == 15 {
        (".txz"@, ArchiveType::TarXz)
    } else if i == 16 {
        (".tzst"@, ArchiveType::TarZst)
    } else if i == 17 {
        (".tlz"@, ArchiveType::TarLzma)
    } else if i == 18 {
        (".tz"@, ArchiveType::TarZ)
    } else if i == 19 {
        (".tarz"@, ArchiveType::TarZ)
    } else {
        (".tar"@, ArchiveType::Tar)
    }
}

/// The suffixes of archives that are ZIPs.
pub open spec fn zip_at(i: int) -> Seq<char> {
    if i == 0 {
        ".zip"@
    } else if i == 1 {
        ".zipx"@
    } else if i == 2 {
        ".krzip"@
    } else if i == 3 {
        ".gf"@
    } else if i == 4 {
        ".jar"@
    } else if i == 5 {
        ".war"@
    } else if i == 6 {
        ".ear"@
    } else if i == 7 {
        ".apk"@
    } else if i == 8 {
        ".epub"@
    } else if i == 9 {
        ".odt"@
    } else if i == 10 {
        ".ods"@
    } else if i == 11 {
        ".odp"@
    } else if i == 12 {
        ".docx"@
    } else if i == 13 {
        ".xlsx"@
    } else if i == 14 {
        ".pptx"@
    } else if i == 15 {
        ".whl"@
    } else if i == 16 {
        ".crx"@
    } else {
        ".xpi"@
    }
}

/// What the first suffix of a tarball from number `i` on means that a name
/// has.
pub open spec fn tarball_from(n: Seq<u32>, i: int) -> Option<ArchiveType>
    decreases 21 - i,
{
    if i >= 21 {
        None
    } else if has_suffix(n, lowered(tarball_at(i).0), true) {
        Some(tarball_at(i).1)
    } else {
        tarball_from(n, i + 1)
    }
}

/// The format that a file name means.
pub open spec fn named(name: Seq<char>) -> Option<ArchiveType> {
    let n = lowered(name);
    if is_volume(n) {
        Some(ArchiveType::SevenZ)
    } else if tarball_from(n, 0) is Some {
        tarball_from(n, 0)
    } else {
        match last_dot(n, n.len() as int) {
            None => None,
            Some(i) => if n.skip(i) == lowered(".7z"@) {
                Some(ArchiveType::SevenZ)
            } else if exists|k: int| 0 <= k < 18 && n.skip(i) == lowered(#[trigger] zip_at(k)) {
                Some(ArchiveType::Zip)
            } else {
                None
            },
        }
    }
}

/// The suffixes from number `i` on that mean a format.
pub open spec fn suffixes_from(t: ArchiveType, i: int) -> Seq<Seq<char>>
    decreases 21 - i,
{
    if i >= 21 {
        Seq::empty()
    } else if tarball_at(i).1 == t {
        seq![tarball_at(i).0] + suffixes_from(t, i + 1)
    } else {
        suffixes_from(t, i + 1)
    }
}

/// Every suffix that means a format.
pub open spec fn suffixes(t: ArchiveType) -> Seq<Seq<char>> {
    match t {
        ArchiveType::Zip => Seq::new(18, |i: int| zip_at(i)),
        ArchiveType::SevenZ => seq![".7z"@],
        _ => suffixes_from(t, 0),
    }
}

/// The usual extension of a format.
pub open spec fn usual(t: ArchiveType) -> Seq<char> {
    match t {
        ArchiveType::Zip => ".zip"@,
        ArchiveType::Tar => ".tar"@,
        ArchiveType::TarGz => ".tar.gz"@,
        ArchiveType::TarBz2 => ".tar.bz2"@,
        ArchiveType::TarXz => ".tar.xz"@,
        ArchiveType::TarZst => ".tar.zst"@,
        ArchiveType::TarLzma => ".tar.lzma"@,
        ArchiveType::TarZ => ".tar.Z"@,
        ArchiveType::TarLz => ".tar.lz"@,
        ArchiveType::SevenZ => ".7z"@,
    }
}

/// Whether `data` starts with `head`.
pub open spec fn begins(data: Seq<u8>, head: Seq<u8>) -> bool {
    data.len() >= head.len() && data.take(head.len() as int) == head
}

/// Whether a file starts as a ZIP does: with an entry, with the end of an
/// empty archive, or with the mark of a first volume.
pub open spec fn looks_zip(p: Seq<u8>) -> bool {
    begins(p, seq![0x50u8, 0x4b, 0x03, 0x04]) || begins(p, seq![0x50u8, 0x4b, 0x05, 0x06])
        || begins(p, seq![0x50u8, 0x4b, 0x07, 0x08])
}

/// Whether a file starts as a tar does.
pub open spec fn looks_tar(p: Seq<u8>) -> bool {
    p.len() >= 265 && p.subrange(257, 262) == seq![0x75u8, 0x73, 0x74, 0x61, 0x72]
}

/// The format that the start of a file means.
pub open spec fn sniffed(p: Seq<u8>) -> Option<ArchiveType> {
    if looks_zip(p) {
        Some(ArchiveType::Zip)
    } else if begins(p, seq![0x37u8, 0x7a, 0xbc, 0xaf, 0x27, 0x1c]) {
        Some(ArchiveType::SevenZ)
    } else if begins(p, seq![0x1fu8, 0x8b]) {
        Some(ArchiveType::TarGz)
    } else if begins(p, seq![0x42u8, 0x5a, 0x68]) {
        Some(ArchiveType::TarBz2)
    } else if begins(p, seq![0xfdu8, 0x37, 0x7a, 0x58, 0x5a, 0x00]) {
        Some(ArchiveType::TarXz)
    } else if begins(p, seq![0x28u8, 0xb5, 0x2f, 0xfd]) {
        Some(ArchiveType::TarZst)
    } else if begins(p, seq![0x4cu8, 0x5a, 0x49, 0x50]) {
        Some(ArchiveType::TarLz)
    } else if begins(p, seq![0x1fu8, 0x9d]) {
        Some(ArchiveType::TarZ)
    } else if looks_tar(p) {
        Some(ArchiveType::Tar)
    } else {
        None
    }
}

fn starts_with(data: &[u8], head: &[u8]) -> (r: bool)
    ensures
        r == begins(data@, head@),
{
    if data.len() < head.len() {
        return false;
    }
    let mut i: usize = 0;
    while i < head.len()
        invariant
            i <= head.len() <= data.len(),
            forall|k: int| 0 <= k < i ==> #[trigger] data@[k] == head@[k],
        decreases head.len() - i,
    {
        if data[i] != head[i] {
            assert(data@.take(head@.len() as int)[i as int] != head@[i as int]);
            return false;
        }
        i = i + 1;
    }
    assert(data@.take(head@.len() as int) =~= head@);
    true
}

fn lower_char(c: char) -> (r: u32)
    ensures
        r == lower(c),
{
    let x: u32 = c as u32;
    if 65 <= x && x <= 90 {
        x + 32
    } else {
        x
    }
}

fn lower_name(name: &str) -> (r: Vec<u32>)
    ensures
        r@ == lowered(name@),
{
    let mut out: Vec<u32> = Vec::new();
    let n: usize = name.unicode_len();
    let mut i: usize = 0;
    while i < n
        invariant
            i <= n == name@.len(),
            out@ == lowered(name@).take(i as int),
        decreases n - i,
    {
        out.push(lower_char(name.get_char(i)));
        assert(out@ =~= lowered(name@).take(i + 1));
        i = i + 1;
    }
    assert(out@ =~= lowered(name@));
    out
}

/// Whether `n` ends in `tail`, from `from` on being what is compared.
fn tail_is(n: &Vec<u32>, from: usize, tail: &str) -> (r: bool)
    requires
        from <= n.len(),
    ensures
        r == (n@.skip(from as int) == lowered(tail@)),
{
    let want: Vec<u32> = lower_name(tail);
    if n.len() - from != want.len() {
        return false;
    }
    let mut i: usize = 0;
    while i < want.len()
        invariant
            i <= want.len(),
            from + want.len() == n.len(),
            want@ == lowered(tail@),
            forall|k: int| 0 <= k < i ==> #[trigger] want@[k] == n@[from + k],
        decreases want.len() - i,
    {
        if n[from + i] != want[i] {
            assert(n@.skip(from as int)[i as int] != want@[i as int]);
            return false;
        }
        i = i + 1;
    }
    assert(n@.skip(from as int) =~= want@);
    true
}

fn find_dot(n: &Vec<u32>) -> (r: Option<usize>)
    ensures
        match last_dot(n@, n@.len() as int) {
            Some(i) => r == Some(i as usize) && 0 <= i < n@.len(),
            None => r is None,
        },
{
    let mut k: usize = n.len();
    while k > 0
        invariant
            k <= n.len(),
            last_dot(n@, n@.len() as int) == last_dot(n@, k as int),
        decreases k,
    {
        if n[k - 1] == 46 {
            return Some(k - 1);
        }
        k = k - 1;
    }
    None
}

fn volume(n: &Vec<u32>) -> (r: bool)
    ensures
        r == is_volume(n@),
{
    let i: usize = match find_dot(n) {
        None => {
            return false;
        },
        Some(i) => i,
    };
    if n.len() - (i + 1) < 3 {
        return false;
    }
    let mut k: usize = i + 1;
    while k < n.len()
        invariant
            i < k <= n.len(),
            last_dot(n@, n@.len() as int) == Some(i as int),
            forall|j: int| i < j < k ==> 48 <= #[trigger] n@[j] <= 57,
        decreases n.len() - k,
    {
        if n[k] < 48 || n[k] > 57 {
            return false;
        }
        k = k + 1;
    }
    proof {
        reveal_strlit(".7z");
    }
    if i < 3 {
        return false;
    }
    let mut stem: Vec<u32> = Vec::new();
    let mut m: usize = 0;
    while m < i
        invariant
            m <= i <= n.len(),
            stem@ == n@.take(m as int),
        decreases i - m,
    {
        stem.push(n[m]);
        assert(stem@ =~= n@.take(m + 1));
        m = m + 1;
    }
    tail_is(&stem, i - 3, ".7z")
}

fn tarball_suffix(i: usize) -> (r: (&'static str, ArchiveType))
    requires
        i < 21,
    ensures
        (r.0@, r.1) == tarball_at(i as int),
{
    match i {
        0 => (".tar.gz", ArchiveType::TarGz),
        1 => (".tar.gzip", ArchiveType::TarGz),
        2 => (".tar.bz2", ArchiveType::TarBz2),
        3 => (".tar.bz", ArchiveType::TarBz2),
        4 => (".tar.xz", ArchiveType::TarXz),
        5 => (".tar.zst", ArchiveType::TarZst),
        6 => (".tar.zstd", ArchiveType::TarZst),
        7 => (".tar.lzma", ArchiveType::TarLzma),
        8 => (".tar.lz", ArchiveType::TarLz),
        9 => (".tar.z", ArchiveType::TarZ),
        10 => (".tgz", ArchiveType::TarGz),
        11 => (".taz", ArchiveType::TarGz),
        12 => (".tbz2", ArchiveType::TarBz2),
        13 => (".tbz", ArchiveType::TarBz2),
        14 => (".tb2", ArchiveType::TarBz2),
        15 => (".txz", ArchiveType::TarXz),
        16 => (".tzst", ArchiveType::TarZst),
        17 => (".tlz", ArchiveType::TarLzma),
        18 => (".tz", ArchiveType::TarZ),
        19 => (".tarz", ArchiveType::TarZ),
        _ => (".tar", ArchiveType::Tar),
    }
}

fn zip_suffix(i: usize) -> (r: &'static str)
    requires
        i < 18,
    ensures
        r@ == zip_at(i as int),
{
    match i {
        0 => ".zip",
        1 => ".zipx",
        2 => ".krzip",
        3 => ".gf",
        4 => ".jar",
        5 => ".war",
        6 => ".ear",
        7 => ".apk",
        8 => ".epub",
        9 => ".odt",
        10 => ".ods",
        11 => ".odp",
        12 => ".docx",
        13 => ".xlsx",
        14 => ".pptx",
        15 => ".whl",
        16 => ".crx",
        _ => ".xpi",
    }
}

/// Each view of a list of text.
pub open spec fn texts(v: Seq<&'static str>) -> Seq<Seq<char>> {
    Seq::new(v.len(), |i: int| v[i]@)
}

impl ArchiveType {
    /// Every format this build knows, whether or not it can write it.
    pub fn all() -> (r: [ArchiveType; 10])
        ensures
            forall|t: ArchiveType| #[trigger] r@.contains(t),
            forall|i: int, j: int| 0 <= i < j < 10 ==> r@[i] != r@[j],
    {
        let r: [ArchiveType; 10] = [
            ArchiveType::Zip,
            ArchiveType::Tar,
            ArchiveType::TarGz,
            ArchiveType::TarBz2,
            ArchiveType::TarXz,
            ArchiveType::TarZst,
            ArchiveType::TarLzma,
            ArchiveType::TarZ,
            ArchiveType::TarLz,
            ArchiveType::SevenZ,
        ];
        proof {
            assert forall|t: ArchiveType| #[trigger] r@.contains(t) by {
                let i: int = match t {
                    ArchiveType::Zip => 0,
                    ArchiveType::Tar => 1,
                    ArchiveType::TarGz => 2,
                    ArchiveType::TarBz2 => 3,
                    ArchiveType::TarXz => 4,
                    ArchiveType::TarZst => 5,
                    ArchiveType::TarLzma => 6,
                    ArchiveType::TarZ => 7,
                    ArchiveType::TarLz => 8,
                    ArchiveType::SevenZ => 9,
                };
                assert(r@[i] == t);
            }
        }
        r
    }

    /// The usual extension for this format, dot included.
    pub fn extension(self) -> (r: &'static str)
        ensures
            r@ == usual(self),
    {
        match self {
            ArchiveType::Zip => ".zip",
            ArchiveType::Tar => ".tar",
            ArchiveType::TarGz => ".tar.gz",
            ArchiveType::TarBz2 => ".tar.bz2",
            ArchiveType::TarXz => ".tar.xz",
            ArchiveType::TarZst => ".tar.zst",
            ArchiveType::TarLzma => ".tar.lzma",
            ArchiveType::TarZ => ".tar.Z",
            ArchiveType::TarLz => ".tar.lz",
            ArchiveType::SevenZ => ".7z",
        }
    }

    /// Work out the format from a file name.
    ///
    /// Matches the whole name, not just the last extension, so `.tar.gz` is
    /// told apart from a bare `.gz`. Shorthands like `.tgz` work too, and so
    /// does one volume of a 7z set, `.7z.001`.
    pub fn from_extension(name: &str) -> (r: Option<Self>)
        ensures
            r == named(name@),
    {
        let n: Vec<u32> = lower_name(name);
        if volume(&n) {
            return Some(ArchiveType::SevenZ);
        }
        let mut i: usize = 0;
        while i < 21
            invariant
                i <= 21,
                n@ == lowered(name@),
                !is_volume(n@),
                tarball_from(n@, 0) == tarball_from(n@, i as int),
            decreases 21 - i,
        {
            let (suffix, kind) = tarball_suffix(i);
            let len: usize = suffix.unicode_len();
            if n.len() > len && tail_is(&n, n.len() - len, suffix) {
                return Some(kind);
            }
            i = i + 1;
        }
        let at: usize = match find_dot(&n) {
            None => {
                return None;
            },
            Some(at) => at,
        };
        if tail_is(&n, at, ".7z") {
            return Some(ArchiveType::SevenZ);
        }
        let mut k: usize = 0;
        while k < 18
            invariant
                k <= 18,
                n@ == lowered(name@),
                !is_volume(n@),
                tarball_from(n@, 0) is None,
                at < n@.len(),
                last_dot(n@, n@.len() as int) == Some(at as int),
                n@.skip(at as int) != lowered(".7z"@),
                forall|j: int| 0 <= j < k ==> n@.skip(at as int) != lowered(#[trigger] zip_at(j)),
            decreases 18 - k,
        {
            if tail_is(&n, at, zip_suffix(k)) {
                return Some(ArchiveType::Zip);
            }
            k = k + 1;
        }
        None
    }

    /// Every suffix that means this format, usual spelling first.
    ///
    /// The rest are the shorthands people actually use, such as `.tgz` for
    /// `.tar.gz`. Case does not matter when matching.
    pub fn extensions(self) -> (r: Vec<&'static str>)
        ensures
            texts(r@) == suffixes(self),
    {
        let mut found: Vec<&'static str> = Vec::new();
        if self == ArchiveType::Zip {
            let mut i: usize = 0;
            while i < 18
                invariant
                    i <= 18,
                    texts(found@) == Seq::new(i as nat, |k: int| zip_at(k)),
                decreases 18 - i,
            {
                let ghost before = texts(found@);
                found.push(zip_suffix(i));
                assert(texts(found@) =~= before.push(zip_at(i as int)));
                assert(texts(found@) =~= Seq::new((i + 1) as nat, |k: int| zip_at(k)));
                i = i + 1;
            }
            return found;
        }
        if self == ArchiveType::SevenZ {
            found.push(".7z");
            assert(texts(found@) =~= seq![".7z"@]);
            return found;
        }
        let mut i: usize = 0;
        assert(texts(found@) + suffixes_from(self, 0) =~= suffixes_from(self, 0));
        while i < 21
            invariant
                i <= 21,
                self != ArchiveType::Zip,
                self != ArchiveType::SevenZ,
                suffixes_from(self, 0) == texts(found@) + suffixes_from(self, i as int),
            decreases 21 - i,
        {
            let (suffix, kind) = tarball_suffix(i);
            let ghost before = texts(found@);
            if kind == self {
                found.push(suffix);
                proof {
                    assert(texts(found@) =~= before.push(suffix@));
                    assert(before + (seq![suffix@] + suffixes_from(self, i + 1)) =~= texts(found@)
                        + suffixes_from(self, i + 1));
                }
            }
            i = i + 1;
        }
        assert(texts(found@) + Seq::<Seq<char>>::empty() =~= texts(found@));
        found
    }

    /// Work out the format from the start of a file.
    ///
    /// A compressed tarball is recognised by its wrapper. A bare tar needs at
    /// least 265 bytes to recognise, since its magic sits that far in.
    pub fn from_magic(prefix: &[u8]) -> (r: Option<Self>)
        ensures
            r == sniffed(prefix@),
    {
        let zip1: [u8; 4] = [0x50, 0x4b, 0x03, 0x04];
        let zip2: [u8; 4] = [0x50, 0x4b, 0x05, 0x06];
        let zip3: [u8; 4] = [0x50, 0x4b, 0x07, 0x08];
        let seven: [u8; 6] = [0x37, 0x7a, 0xbc, 0xaf, 0x27, 0x1c];
        let bzip2: [u8; 3] = [0x42, 0x5a, 0x68];
        let xz: [u8; 6] = [0xfd, 0x37, 0x7a, 0x58, 0x5a, 0x00];
        let zstd: [u8; 4] = [0x28, 0xb5, 0x2f, 0xfd];
        let lzip: [u8; 4] = [0x4c, 0x5a, 0x49, 0x50];
        let gzip: [u8; 2] = [0x1f, 0x8b];
        let compress: [u8; 2] = [0x1f, 0x9d];
        let tar: [u8; 5] = [0x75, 0x73, 0x74, 0x61, 0x72];
        proof {
            assert(zip1@ =~= seq![0x50u8, 0x4b, 0x03, 0x04]);
            assert(zip2@ =~= seq![0x50u8, 0x4b, 0x05, 0x06]);
            assert(zip3@ =~= seq![0x50u8, 0x4b, 0x07, 0x08]);
            assert(seven@ =~= seq![0x37u8, 0x7a, 0xbc, 0xaf, 0x27, 0x1c]);
            assert(bzip2@ =~= seq![0x42u8, 0x5a, 0x68]);
            assert(xz@ =~= seq![0xfdu8, 0x37, 0x7a, 0x58, 0x5a, 0x00]);
            assert(zstd@ =~= seq![0x28u8, 0xb5, 0x2f, 0xfd]);
            assert(lzip@ =~= seq![0x4cu8, 0x5a, 0x49, 0x50]);
            assert(gzip@ =~= seq![0x1fu8, 0x8b]);
            assert(compress@ =~= seq![0x1fu8, 0x9d]);
            assert(tar@ =~= seq![0x75u8, 0x73, 0x74, 0x61, 0x72]);
        }
        if starts_with(prefix, &zip1) || starts_with(prefix, &zip2) || starts_with(prefix, &zip3) {
            return Some(ArchiveType::Zip);
        }
        if starts_with(prefix, &seven) {
            return Some(ArchiveType::SevenZ);
        }
        if starts_with(prefix, &gzip) {
            return Some(ArchiveType::TarGz);
        }
        if starts_with(prefix, &bzip2) {
            return Some(ArchiveType::TarBz2);
        }
        if starts_with(prefix, &xz) {
            return Some(ArchiveType::TarXz);
        }
        if starts_with(prefix, &zstd) {
            return Some(ArchiveType::TarZst);
        }
        if starts_with(prefix, &lzip) {
            return Some(ArchiveType::TarLz);
        }
        if starts_with(prefix, &compress) {
            return Some(ArchiveType::TarZ);
        }
        if prefix.len() >= 265 {
            let magic: &[u8] = &prefix[257..262];
            if starts_with(magic, &tar) {
                assert(magic@ =~= magic@.take(5));
                return Some(ArchiveType::Tar);
            }
            assert(magic@ =~= magic@.take(5));
        }
        None
    }

    /// Whether this build can write this format, not just read it.
    pub fn can_write(self) -> (r: bool)
        ensures
            r == !(self is TarZ),
    {
        match self.dispatch() {
            Dispatch::Zip | Dispatch::SevenZ => true,
            Dispatch::Tarball(wrapper) => wrapper.can_write(),
        }
    }

    /// Which kind of archive this format is.
    pub fn dispatch(self) -> (r: Dispatch)
        ensures
            r == dispatch_of(self),
    {
        match self {
            ArchiveType::Zip => Dispatch::Zip,
            ArchiveType::SevenZ => Dispatch::SevenZ,
            ArchiveType::Tar => Dispatch::Tarball(Wrapper::Plain),
            ArchiveType::TarGz => Dispatch::Tarball(Wrapper::Gzip),
            ArchiveType::TarBz2 => Dispatch::Tarball(Wrapper::Bzip2),
            ArchiveType::TarXz => Dispatch::Tarball(Wrapper::Xz),
            ArchiveType::TarZst => Dispatch::Tarball(Wrapper::Zstd),
            ArchiveType::TarLzma => Dispatch::Tarball(Wrapper::Lzma),
            ArchiveType::TarZ => Dispatch::Tarball(Wrapper::Compress),
            ArchiveType::TarLz => Dispatch::Tarball(Wrapper::Lzip),
        }
    }
}

/// Different formats are different kinds of archive.
pub proof fn lemma_dispatch_distinct(a: ArchiveType, b: ArchiveType)
    requires
        dispatch_of(a) == dispatch_of(b),
    ensures
        a == b,
{
}

/// The first suffix of a format is its usual one, but for capitals.
pub proof fn lemma_usual_first(t: ArchiveType)
    ensures
        suffixes(t).len() > 0,
        lowered(suffixes(t)[0]) == lowered(usual(t)),
{
    reveal_with_fuel(suffixes_from, 22);
    reveal_strlit(".tar.z");
    reveal_strlit(".tar.Z");
    assert(lowered(".tar.z"@) =~= lowered(".tar.Z"@));
}

/// What to do about an entry that would write outside the destination.
#[derive(Debug, Clone, Copy, PartialEq, Eq, Structural)]
#[non_exhaustive]
pub enum UnsafeEntries {
    /// Stop the whole extraction. The default.
    Refuse,
    /// Pass over the entry and extract the rest.
    Skip,
}

/// Whose files the extracted ones become.
#[derive(Debug, Clone, Copy, PartialEq, Eq, Structural)]
#[non_exhaustive]
pub enum Ownership {
    /// Whoever extracts. The default.
    Ignore,
    /// The owner the archive recorded, by name.
    Names,
    /// The owner the archive recorded, by number.
    Ids,
}

/// What to do when an extracted file is already there.
#[derive(Debug, Clone, Copy, PartialEq, Eq, Structural)]
#[non_exhaustive]
pub enum Overwrite {
    /// Replace it.
    Always,
    /// Keep it.
    Never,
    /// Stop. The default.
    Error,
}

/// How an archive is extracted.
#[derive(Clone)]
pub struct ExtractOptions {
    /// How many worker threads to use, or every core.
    pub threads: Option<usize>,
    /// The entries to extract, or all of them when empty.
    pub selection: Vec<String>,
    /// What to decrypt with.
    pub password: Option<Password>,
    /// What to do about an entry that would write outside the destination.
    pub unsafe_entries: UnsafeEntries,
    /// How many leading directories to drop from every name.
    pub strip_components: usize,
    /// Whether to drop a leading directory that every entry shares.
    pub strip_root: bool,
    /// Whether to recreate symbolic links.
    pub restore_symlinks: bool,
    /// Whether to restore permissions.
    pub preserve_permissions: bool,
    /// Whether to restore times.
    pub preserve_timestamps: bool,
    /// Whose files the extracted ones become.
    pub ownership: Ownership,
    /// What to do when a file is already there.
    pub overwrite: Overwrite,
}

/// Everything is extracted, with links, permissions and times, as whoever
/// extracts, and nothing outside the destination or already there is touched.
pub open spec fn plain_extraction(o: ExtractOptions) -> bool {
    &&& o.threads is None
    &&& o.selection@.len() == 0
    &&& o.password is None
    &&& o.unsafe_entries == UnsafeEntries::Refuse
    &&& o.strip_components == 0
    &&& !o.strip_root
    &&& o.restore_symlinks
    &&& o.preserve_permissions
    &&& o.preserve_timestamps
    &&& o.ownership == Ownership::Ignore
    &&& o.overwrite == Overwrite::Error
}

impl Default for ExtractOptions {
    fn default() -> (r: Self)
        ensures
            plain_extraction(r),
    {
        ExtractOptions {
            threads: None,
            selection: Vec::new(),
            password: None,
            unsafe_entries: UnsafeEntries::Refuse,
            strip_components: 0,
            strip_root: false,
            restore_symlinks: true,
            preserve_permissions: true,
            preserve_timestamps: true,
            ownership: Ownership::Ignore,
            overwrite: Overwrite::Error,
        }
    }
}

/// How an archive is created.
#[derive(Clone)]
pub struct CreateOptions {
    /// How hard to compress.
    pub level: Level,
    /// What to compress each entry with, or what the format usually does.
    pub method: Option<Method>,
    /// How many worker threads to use, or every core.
    pub threads: Option<usize>,
    /// How large a volume may be, or a single file.
    pub volume_size: Option<u64>,
    /// What to encrypt with.
    pub password: Option<Password>,
    /// The scheme to encrypt with.
    pub encryption: Encryption,
    /// Whether to store runs of zeros as holes.
    pub sparse: bool,
}

/// The usual level and method, in one file, without encryption or holes.
pub open spec fn plain_creation() -> CreateOptions {
    CreateOptions {
        level: Level::Default,
        method: None,
        threads: None,
        volume_size: None,
        password: None,
        encryption: Encryption::Aes256,
        sparse: false,
    }
}

impl Default for CreateOptions {
    fn default() -> (r: Self)
        ensures
            r == plain_creation(),
    {
        CreateOptions {
            level: Level::Default,
            method: None,
            threads: None,
            volume_size: None,
            password: None,
            encryption: Encryption::Aes256,
            sparse: false,
        }
    }
}

/// The format a file name stands for, where there is a name.
pub open spec fn named_if(name: Option<Seq<char>>) -> Option<ArchiveType> {
    match name {
        Some(n) => named(n),
        None => None,
    }
}

/// The format a file's first bytes stand for, where they could be read.
pub open spec fn sniffed_if(prefix: Option<Seq<u8>>) -> Option<ArchiveType> {
    match prefix {
        Some(p) => sniffed(p),
        None => None,
    }
}

/// The first format found of two.
pub open spec fn first_of(a: Option<ArchiveType>, b: Option<ArchiveType>) -> Option<ArchiveType> {
    if a is Some {
        a
    } else {
        b
    }
}

/// Whether `r` is the format found, or where there is none, an error that
/// names the archive at `path`.
pub open spec fn is_found(
    r: std::result::Result<ArchiveType, UnknownFormat>,
    a: Option<ArchiveType>,
    path: String,
) -> bool {
    match a {
        Some(t) => r == Ok::<ArchiveType, UnknownFormat>(t),
        None => r matches Err(e) && e.path == Some(path),
    }
}

/// An archive, named by its path, and what is asked of it.
///
/// Build one with [`Archive::new`] and chain any settings you want.
pub struct Archive {
    /// Where the archive is.
    pub path: String,
    /// The format, where it is not to be detected.
    pub kind: Option<ArchiveType>,
    /// How to extract it.
    pub extract_options: ExtractOptions,
    /// How to create it.
    pub create_options: CreateOptions,
}

impl Archive {
    /// Name the archive at `path`. Nothing is opened.
    pub fn new(path: String) -> (r: Self)
        ensures
            r.path == path,
            r.kind is None,
            plain_extraction(r.extract_options),
            r.create_options == plain_creation(),
    {
        Archive {
            path,
            kind: None,
            extract_options: ExtractOptions::default(),
            create_options: CreateOptions::default(),
        }
    }

    /// Use this format instead of detecting one.
    pub fn set_type(self, kind: ArchiveType) -> (r: Self)
        ensures
            r == (Archive { kind: Some(kind), ..self }),
    {
        let mut this: Archive = self;
        this.kind = Some(kind);
        this
    }

    /// How many worker threads to use, for both reading and writing.
    ///
    /// `None` is the default and uses every core.
    pub fn set_threads(self, threads: Option<usize>) -> (r: Self)
        ensures
            r == (Archive {
                extract_options: ExtractOptions { threads, ..self.extract_options },
                create_options: CreateOptions { threads, ..self.create_options },
                ..self
            }),
    {
        let mut this: Archive = self;
        this.extract_options.threads = threads;
        this.create_options.threads = threads;
        this
    }

    /// Encrypt with this password when writing, decrypt with it when reading.
    pub fn set_password(self, password: Password) -> (r: Self)
        ensures
            r.extract_options.password matches Some(p) && p@ == password@,
            r == (Archive {
                extract_options: ExtractOptions {
                    password: r.extract_options.password,
                    ..self.extract_options
                },
                create_options: CreateOptions {
                    password: Some(password),
                    ..self.create_options
                },
                ..self
            }),
    {
        let mut this: Archive = self;
        this.extract_options.password = Some(password.copy());
        this.create_options.password = Some(password);
        this
    }

    /// How hard to compress. Defaults to [`Level::Default`].
    pub fn set_level(self, level: Level) -> (r: Self)
        ensures
            r == (Archive {
                create_options: CreateOptions { level: level, ..self.create_options },
                ..self
            }),
    {
        let mut this: Archive = self;
        this.create_options.level = level;
        this
    }

    /// Compress each entry with this method.
    ///
    /// A tarball has no method of its own for each entry.
    pub fn set_method(self, method: Method) -> (r: Self)
        ensures
            r == (Archive {
                create_options: CreateOptions { method: Some(method), ..self.create_options },
                ..self
            }),
    {
        let mut this: Archive = self;
        this.create_options.method = Some(method);
        this
    }

    /// Split the new archive into volumes of at most `bytes` each.
    pub fn set_volume_size(self, bytes: u64) -> (r: Self)
        ensures
            r == (Archive {
                create_options: CreateOptions { volume_size: Some(bytes), ..self.create_options },
                ..self
            }),
    {
        let mut this: Archive = self;
        this.create_options.volume_size = Some(bytes);
        this
    }

    /// Extract only these entries rather than the whole archive.
    pub fn set_selection(self, names: Vec<String>) -> (r: Self)
        ensures
            r == (Archive {
                extract_options: ExtractOptions { selection: names, ..self.extract_options },
                ..self
            }),
    {
        let mut this: Archive = self;
        this.extract_options.selection = names;
        this
    }

    /// Which encryption scheme to use when a password is set.
    pub fn set_encryption(self, encryption: Encryption) -> (r: Self)
        ensures
            r == (Archive {
                create_options: CreateOptions { encryption: encryption, ..self.create_options },
                ..self
            }),
    {
        let mut this: Archive = self;
        this.create_options.encryption = encryption;
        this
    }

    /// What to do about an entry that would write outside the destination.
    pub fn set_unsafe_entries(self, policy: UnsafeEntries) -> (r: Self)
        ensures
            r == (Archive {
                extract_options: ExtractOptions { unsafe_entries: policy, ..self.extract_options },
                ..self
            }),
    {
        let mut this: Archive = self;
        this.extract_options.unsafe_entries = policy;
        this
    }

    /// Drop `count` leading directories from every name while extracting.
    pub fn set_strip_components(self, count: usize) -> (r: Self)
        ensures
            r == (Archive {
                extract_options: ExtractOptions { strip_components: count, ..self.extract_options },
                ..self
            }),
    {
        let mut this: Archive = self;
        this.extract_options.strip_components = count;
        this
    }

    /// Drop the leading directory, but only if every entry shares it.
    pub fn set_strip_root(self, strip: bool) -> (r: Self)
        ensures
            r == (Archive {
                extract_options: ExtractOptions { strip_root: strip, ..self.extract_options },
                ..self
            }),
    {
        let mut this: Archive = self;
        this.extract_options.strip_root = strip;
        this
    }

    /// Store long runs of zeros as holes instead of as bytes. Tar only.
    pub fn set_sparse(self, sparse: bool) -> (r: Self)
        ensures
            r == (Archive {
                create_options: CreateOptions { sparse: sparse, ..self.create_options },
                ..self
            }),
    {
        let mut this: Archive = self;
        this.create_options.sparse = sparse;
        this
    }

    /// Recreate symbolic links while extracting. On by default.
    pub fn set_restore_symlinks(self, restore: bool) -> (r: Self)
        ensures
            r == (Archive {
                extract_options: ExtractOptions { restore_symlinks: restore, ..self.extract_options },
                ..self
            }),
    {
        let mut this: Archive = self;
        this.extract_options.restore_symlinks = restore;
        this
    }

    /// Restore the permissions each entry recorded. On by default.
    pub fn set_preserve_permissions(self, preserve: bool) -> (r: Self)
        ensures
            r == (Archive {
                extract_options: ExtractOptions { preserve_permissions: preserve, ..self.extract_options },
                ..self
            }),
    {
        let mut this: Archive = self;
        this.extract_options.preserve_permissions = preserve;
        this
    }

    /// Restore the times each entry recorded. On by default.
    pub fn set_preserve_timestamps(self, preserve: bool) -> (r: Self)
        ensures
            r == (Archive {
                extract_options: ExtractOptions { preserve_timestamps: preserve, ..self.extract_options },
                ..self
            }),
    {
        let mut this: Archive = self;
        this.extract_options.preserve_timestamps = preserve;
        this
    }

    /// Whose files the extracted ones become.
    pub fn set_ownership(self, ownership: Ownership) -> (r: Self)
        ensures
            r == (Archive {
                extract_options: ExtractOptions { ownership: ownership, ..self.extract_options },
                ..self
            }),
    {
        let mut this: Archive = self;
        this.extract_options.ownership = ownership;
        this
    }

    /// What to do when an extracted file is already there.
    pub fn set_overwrite(self, overwrite: Overwrite) -> (r: Self)
        ensures
            r == (Archive {
                extract_options: ExtractOptions { overwrite: overwrite, ..self.extract_options },
                ..self
            }),
    {
        let mut this: Archive = self;
        this.extract_options.overwrite = overwrite;
        this
    }

    /// Use these extraction options, replacing anything set so far.
    pub fn with_extract_options(self, options: ExtractOptions) -> (r: Self)
        ensures
            r == (Archive { extract_options: options, ..self }),
    {
        let mut this: Archive = self;
        this.extract_options = options;
        this
    }

    /// Use these creation options, replacing anything set so far.
    pub fn with_create_options(self, options: CreateOptions) -> (r: Self)
        ensures
            r == (Archive { create_options: options, ..self }),
    {
        let mut this: Archive = self;
        this.create_options = options;
        this
    }

    /// The path this archive was named with.
    pub fn path(&self) -> (r: &String)
        ensures
            *r == self.path,
    {
        &self.path
    }

    /// The format to read: the one that was set, or what the file's first
    /// bytes show, or what its name says. `prefix` is missing where the file
    /// could not be opened, `name` where the path ends in none.
    pub fn resolve_for_read(
        &self,
        prefix: Option<&[u8]>,
        name: Option<&str>,
    ) -> (r: std::result::Result<ArchiveType, UnknownFormat>)
        ensures
            is_found(
                r,
                first_of(
                    self.kind,
                    first_of(
                        sniffed_if(
                            match prefix {
                                Some(p) => Some(p@),
                                None => None,
                            },
                        ),
                        named_if(
                            match name {
                                Some(n) => Some(n@),
                                None => None,
                            },
                        ),
                    ),
                ),
                self.path,
            ),
    {
        if let Some(kind) = self.kind {
            return Ok(kind);
        }
        if let Some(p) = prefix {
            if let Some(kind) = ArchiveType::from_magic(p) {
                return Ok(kind);
            }
        }
        if let Some(n) = name {
            if let Some(kind) = ArchiveType::from_extension(n) {
                return Ok(kind);
            }
        }
        Err(UnknownFormat { path: Some(self.path.clone()) })
    }

    /// The format to write: the one that was set, or what the name says.
    pub fn resolve_for_write(&self, name: Option<&str>) -> (r: std::result::Result<
        ArchiveType,
        UnknownFormat,
    >)
        ensures
            is_found(
                r,
                first_of(
                    self.kind,
                    named_if(
                        match name {
                            Some(n) => Some(n@),
                            None => None,
                        },
                    ),
                ),
                self.path,
            ),
    {
        if let Some(kind) = self.kind {
            return Ok(kind);
        }
        if let Some(n) = name {
            if let Some(kind) = ArchiveType::from_extension(n) {
                return Ok(kind);
            }
        }
        Err(UnknownFormat { path: Some(self.path.clone()) })
    }
}

} // verus!
