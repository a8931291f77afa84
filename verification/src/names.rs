//! Suffixes of file names and the formats they mean.
use crate::archive;
use crate::archive::ArchiveType;
use vstd::prelude::*;

verus! {

/// Every suffix, those of tarballs first.
pub open spec fn suffix_at(p: int) -> Seq<char> {
    if p < 21 {
        archive::tarball_at(p).0
    } else if p == 21 {
        ".7z"@
    } else {
        archive::zip_at(p - 22)
    }
}

/// What each suffix means.
pub open spec fn meant_at(p: int) -> ArchiveType {
    if p < 21 {
        archive::tarball_at(p).1
    } else if p == 21 {
        ArchiveType::SevenZ
    } else {
        ArchiveType::Zip
    }
}

/// The last three characters of a name as one number.
spec fn third(n: Seq<u32>) -> int {
    n[n.len() - 1] + 0x100 * n[n.len() - 2] + 0x1_0000 * n[n.len() - 3]
}

/// The last character but three.
spec fn fourth(n: Seq<u32>) -> int {
    n[n.len() - 4] as int
}

/// Which suffix a name has, by its last four characters.
spec fn place(n: Seq<u32>) -> int {
    if third(n) == 0x2e677a {
        0
    } else if third(n) == 0x7a6970 {
        if fourth(n) == 103 {
            1
        } else if fourth(n) == 46 {
            22
        } else {
            24
        }
    } else if third(n) == 0x627a32 {
        if fourth(n) == 46 {
            2
        } else {
            12
        }
    } else if third(n) == 0x2e627a {
        3
    } else if third(n) == 0x2e787a {
        4
    } else if third(n) == 0x7a7374 {
        if fourth(n) == 46 {
            5
        } else {
            16
        }
    } else if third(n) == 0x737464 {
        6
    } else if third(n) == 0x7a6d61 {
        7
    } else if third(n) == 0x2e6c7a {
        8
    } else if third(n) == 0x722e7a {
        9
    } else if third(n) == 0x74677a {
        10
    } else if third(n) == 0x74617a {
        11
    } else if third(n) == 0x74627a {
        13
    } else if third(n) == 0x746232 {
        14
    } else if third(n) == 0x74787a {
        15
    } else if third(n) == 0x746c7a {
        17
    } else if third(n) == 0x2e747a {
        18
    } else if third(n) == 0x61727a {
        19
    } else if third(n) == 0x746172 {
        20
    } else if third(n) == 0x2e377a {
        21
    } else if third(n) == 0x697078 {
        23
    } else if third(n) == 0x2e6766 {
        25
    } else if third(n) == 0x6a6172 {
        26
    } else if third(n) == 0x776172 {
        27
    } else if third(n) == 0x656172 {
        28
    } else if third(n) == 0x61706b {
        29
    } else if third(n) == 0x707562 {
        30
    } else if third(n) == 0x6f6474 {
        31
    } else if third(n) == 0x6f6473 {
        32
    } else if third(n) == 0x6f6470 {
        33
    } else if third(n) == 0x6f6378 {
        34
    } else if third(n) == 0x6c7378 {
        35
    } else if third(n) == 0x707478 {
        36
    } else if third(n) == 0x77686c {
        37
    } else if third(n) == 0x637278 {
        38
    } else if third(n) == 0x787069 {
        39
    } else {
        40
    }
}

/// What a suffix is like.
spec fn suffix_ok(p: int) -> bool {
    let s = archive::lowered(suffix_at(p));
    let l = s.len();
    &&& l >= 3
    &&& l == 3 ==> third(s) == 0x2e747a || third(s) == 0x2e377a || third(s) == 0x2e6766
    &&& place(s) == p
    &&& s[0] == 46
    &&& !(48 <= s[l - 1] <= 57 && 48 <= s[l - 2] <= 57)
    &&& p >= 21 ==> forall|k: int| 0 < k < l ==> #[trigger] s[k] != 46
}

#[verifier::spinoff_prover]
#[verifier::rlimit(80)]
proof fn lemma_suffix(p: int)
    requires
        0 <= p < 40,
    ensures
        suffix_ok(p),
{
    if p == 0 {
        reveal_strlit(".tar.gz");
        assert(suffix_at(0) == ".tar.gz"@);
    } else if p == 1 {
        reveal_strlit(".tar.gzip");
        assert(suffix_at(1) == ".tar.gzip"@);
    } else if p == 2 {
        reveal_strlit(".tar.bz2");
        assert(suffix_at(2) == ".tar.bz2"@);
    } else if p == 3 {
        reveal_strlit(".tar.bz");
        assert(suffix_at(3) == ".tar.bz"@);
    } else if p == 4 {
        reveal_strlit(".tar.xz");
        assert(suffix_at(4) == ".tar.xz"@);
    } else if p == 5 {
        reveal_strlit(".tar.zst");
        assert(suffix_at(5) == ".tar.zst"@);
    } else if p == 6 {
        reveal_strlit(".tar.zstd");
        assert(suffix_at(6) == ".tar.zstd"@);
    } else if p == 7 {
        reveal_strlit(".tar.lzma");
        assert(suffix_at(7) == ".tar.lzma"@);
    } else if p == 8 {
        reveal_strlit(".tar.lz");
        assert(suffix_at(8) == ".tar.lz"@);
    } else if p == 9 {
        reveal_strlit(".tar.z");
        assert(suffix_at(9) == ".tar.z"@);
    } else if p == 10 {
        reveal_strlit(".tgz");
        assert(suffix_at(10) == ".tgz"@);
    } else if p == 11 {
        reveal_strlit(".taz");
        assert(suffix_at(11) == ".taz"@);
    } else if p == 12 {
        reveal_strlit(".tbz2");
        assert(suffix_at(12) == ".tbz2"@);
    } else if p == 13 {
        reveal_strlit(".tbz");
        assert(suffix_at(13) == ".tbz"@);
    } else if p == 14 {
        reveal_strlit(".tb2");
        assert(suffix_at(14) == ".tb2"@);
    } else if p == 15 {
        reveal_strlit(".txz");
        assert(suffix_at(15) == ".txz"@);
    } else if p == 16 {
        reveal_strlit(".tzst");
        assert(suffix_at(16) == ".tzst"@);
    } else if p == 17 {
        reveal_strlit(".tlz");
        assert(suffix_at(17) == ".tlz"@);
    } else if p == 18 {
        reveal_strlit(".tz");
        assert(suffix_at(18) == ".tz"@);
    } else if p == 19 {
        reveal_strlit(".tarz");
        assert(suffix_at(19) == ".tarz"@);
    } else if p == 20 {
        reveal_strlit(".tar");
        assert(suffix_at(20) == ".tar"@);
    } else if p == 21 {
        reveal_strlit(".7z");
        assert(suffix_at(21) == ".7z"@);
    } else if p == 22 {
        reveal_strlit(".zip");
        assert(suffix_at(22) == ".zip"@);
    } else if p == 23 {
        reveal_strlit(".zipx");
        assert(suffix_at(23) == ".zipx"@);
    } else if p == 24 {
        reveal_strlit(".krzip");
        assert(suffix_at(24) == ".krzip"@);
    } else if p == 25 {
        reveal_strlit(".gf");
        assert(suffix_at(25) == ".gf"@);
    } else if p == 26 {
        reveal_strlit(".jar");
        assert(suffix_at(26) == ".jar"@);
    } else if p == 27 {
        reveal_strlit(".war");
        assert(suffix_at(27) == ".war"@);
    } else if p == 28 {
        reveal_strlit(".ear");
        assert(suffix_at(28) == ".ear"@);
    } else if p == 29 {
        reveal_strlit(".apk");
        assert(suffix_at(29) == ".apk"@);
    } else if p == 30 {
        reveal_strlit(".epub");
        assert(suffix_at(30) == ".epub"@);
    } else if p == 31 {
        reveal_strlit(".odt");
        assert(suffix_at(31) == ".odt"@);
    } else if p == 32 {
        reveal_strlit(".ods");
        assert(suffix_at(32) == ".ods"@);
    } else if p == 33 {
        reveal_strlit(".odp");
        assert(suffix_at(33) == ".odp"@);
    } else if p == 34 {
        reveal_strlit(".docx");
        assert(suffix_at(34) == ".docx"@);
    } else if p == 35 {
        reveal_strlit(".xlsx");
        assert(suffix_at(35) == ".xlsx"@);
    } else if p == 36 {
        reveal_strlit(".pptx");
        assert(suffix_at(36) == ".pptx"@);
    } else if p == 37 {
        reveal_strlit(".whl");
        assert(suffix_at(37) == ".whl"@);
    } else if p == 38 {
        reveal_strlit(".crx");
        assert(suffix_at(38) == ".crx"@);
    } else {
        reveal_strlit(".xpi");
        assert(suffix_at(39) == ".xpi"@);
    }
}

/// A name that ends in a suffix is told by it.
proof fn lemma_told(n: Seq<u32>, p: int)
    requires
        0 <= p < 40,
        archive::has_suffix(n, archive::lowered(suffix_at(p)), false),
    ensures
        place(n) == p,
        !archive::is_volume(n),
{
    lemma_suffix(p);
    let s = archive::lowered(suffix_at(p));
    let d = n.len() - s.len();
    assert(n.skip(d)[s.len() - 1] == n[n.len() - 1]);
    assert(n.skip(d)[s.len() - 2] == n[n.len() - 2]);
    assert(n.skip(d)[s.len() - 3] == n[n.len() - 3]);
    if s.len() > 3 {
        assert(n.skip(d)[s.len() - 4] == n[n.len() - 4]);
    }
    assert(third(n) == third(s));
    if archive::is_volume(n) {
        let i = archive::last_dot(n, n.len() as int)->Some_0;
        lemma_last_dot_range(n, n.len() as int);
        assert(48 <= n[n.len() - 1] <= 57);
        assert(48 <= n[n.len() - 2] <= 57);
    }
}

proof fn lemma_last_dot_range(n: Seq<u32>, k: int)
    requires
        k <= n.len(),
    ensures
        archive::last_dot(n, k) matches Some(i) ==> 0 <= i < k,
    decreases k,
{
    if k > 0 {
        lemma_last_dot_range(n, k - 1);
    }
}

/// The last dot is the one after which there is none.
proof fn lemma_last_dot(n: Seq<u32>, at: int, k: int)
    requires
        0 <= at < k <= n.len(),
        n[at] == 46,
        forall|i: int| at < i < k ==> #[trigger] n[i] != 46,
    ensures
        archive::last_dot(n, k) == Some(at),
    decreases k,
{
    if at < k - 1 {
        lemma_last_dot(n, at, k - 1);
    }
}

/// The first suffix of a tarball that a name has.
proof fn lemma_tarball(n: Seq<u32>, p: int, i: int)
    requires
        0 <= p < 40,
        0 <= i <= 21,
        p < 21 ==> i <= p,
        archive::has_suffix(n, archive::lowered(suffix_at(p)), p < 21),
    ensures
        archive::tarball_from(n, i) == if p < 21 {
            Some(meant_at(p))
        } else {
            None
        },
    decreases 21 - i,
{
    if i < 21 {
        if archive::has_suffix(n, archive::lowered(archive::tarball_at(i).0), true) {
            lemma_told(n, i);
            lemma_told(n, p);
        } else {
            lemma_tarball(n, p, i + 1);
        }
    }
}

/// A name that ends in a suffix means the format of that suffix. Tarballs
/// have something before it.
pub proof fn lemma_suffix_named(stem: Seq<char>, p: int)
    requires
        0 <= p < 40,
        p < 21 ==> stem.len() > 0,
    ensures
        archive::named(stem + suffix_at(p)) == Some(meant_at(p)),
{
    let name = stem + suffix_at(p);
    let n = archive::lowered(name);
    let s = archive::lowered(suffix_at(p));
    lemma_suffix(p);
    assert(n.skip(n.len() - s.len()) =~= s);
    lemma_told(n, p);
    lemma_tarball(n, p, 0);
    if p >= 21 {
        let at = stem.len() as int;
        assert(n[at] == s[0]);
        assert forall|i: int| at < i < n.len() implies #[trigger] n[i] != 46 by {
            assert(n[i] == s[i - at]);
        }
        lemma_last_dot(n, at, n.len() as int);
        if p == 21 {
            assert(s == archive::lowered(".7z"@));
        } else {
            assert(s == archive::lowered(archive::zip_at(p - 22)));
            if n.skip(at) == archive::lowered(".7z"@) {
                assert(archive::lowered(suffix_at(21)) == archive::lowered(".7z"@));
                lemma_told(n, 21);
            }
        }
    }
}

/// No suffix is listed twice.
pub proof fn lemma_suffixes_differ(p: int, q: int)
    requires
        0 <= p < q < 40,
    ensures
        suffix_at(p) != suffix_at(q),
{
    lemma_suffix(p);
    lemma_suffix(q);
}

proof fn lemma_listed_from(t: ArchiveType, i: int, j: int) -> (p: int)
    requires
        0 <= i,
        0 <= j < archive::suffixes_from(t, i).len(),
    ensures
        i <= p < 21,
        archive::tarball_at(p).1 == t,
        archive::tarball_at(p).0 == archive::suffixes_from(t, i)[j],
    decreases 21 - i,
{
    if archive::tarball_at(i).1 == t {
        if j == 0 {
            i
        } else {
            lemma_listed_from(t, i + 1, j - 1)
        }
    } else {
        lemma_listed_from(t, i + 1, j)
    }
}

/// Whatever stands before it, a suffix that a format lists leads back to that
/// format. The name of a tarball is more than its suffix.
pub proof fn lemma_listed_suffix_named(t: ArchiveType, j: int, stem: Seq<char>)
    requires
        0 <= j < archive::suffixes(t).len(),
        t is Zip || t is SevenZ || stem.len() > 0,
    ensures
        archive::named(stem + archive::suffixes(t)[j]) == Some(t),
{
    match t {
        ArchiveType::Zip => {
            lemma_suffix_named(stem, 22 + j);
        },
        ArchiveType::SevenZ => {
            lemma_suffix_named(stem, 21);
        },
        _ => {
            let p = lemma_listed_from(t, 0, j);
            lemma_suffix_named(stem, p);
        },
    }
}

proof fn lemma_listed_twice_from(t: ArchiveType, i: int, j: int, k: int)
    requires
        0 <= i,
        0 <= j < k < archive::suffixes_from(t, i).len(),
    ensures
        archive::suffixes_from(t, i)[j] != archive::suffixes_from(t, i)[k],
    decreases 21 - i,
{
    if archive::tarball_at(i).1 == t {
        if j == 0 {
            let p = lemma_listed_from(t, i + 1, k - 1);
            lemma_suffixes_differ(i, p);
        } else {
            lemma_listed_twice_from(t, i + 1, j - 1, k - 1);
        }
    } else {
        lemma_listed_twice_from(t, i + 1, j, k);
    }
}

/// A format lists no suffix twice, and two formats list none in common.
pub proof fn lemma_listed_once(t: ArchiveType, j: int, u: ArchiveType, k: int)
    requires
        0 <= j < archive::suffixes(t).len(),
        0 <= k < archive::suffixes(u).len(),
        t != u || j != k,
    ensures
        archive::suffixes(t)[j] != archive::suffixes(u)[k],
{
    if t != u {
        let stem = seq!['a'];
        lemma_listed_suffix_named(t, j, stem);
        lemma_listed_suffix_named(u, k, stem);
    } else {
        let a = if j < k {
            j
        } else {
            k
        };
        let b = if j < k {
            k
        } else {
            j
        };
        match t {
            ArchiveType::Zip => {
                lemma_suffixes_differ(22 + a, 22 + b);
            },
            ArchiveType::SevenZ => {},
            _ => {
                lemma_listed_twice_from(t, 0, a, b);
            },
        }
    }
}

} // verus!
