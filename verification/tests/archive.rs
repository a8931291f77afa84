//! Formats, methods and what is asked of an archive.
use ttarchive::archive::Dispatch;
use ttarchive::codecs;
use ttarchive::codecs::{Decoder, Encoder};
use ttarchive::utils::error::Unsupported;
use ttarchive::{
    Archive, ArchiveType, CreateOptions, EncryptionMethod, Error, ExtractOptions, Level, Method, Overwrite, Ownership,
    Password, UnknownFormat, UnsafeEntries, Wrapper,
};

#[test]
fn names_stand_for_formats() {
    for (name, expected) in [
        ("a.zip", Some(ArchiveType::Zip)),
        ("A.ZIP", Some(ArchiveType::Zip)),
        ("a.jar", Some(ArchiveType::Zip)),
        ("a.tar", Some(ArchiveType::Tar)),
        ("a.tar.gz", Some(ArchiveType::TarGz)),
        ("a.tgz", Some(ArchiveType::TarGz)),
        ("a.tar.bz2", Some(ArchiveType::TarBz2)),
        ("a.tar.xz", Some(ArchiveType::TarXz)),
        ("a.tar.zst", Some(ArchiveType::TarZst)),
        ("a.tar.lzma", Some(ArchiveType::TarLzma)),
        ("a.tar.Z", Some(ArchiveType::TarZ)),
        ("a.tar.lz", Some(ArchiveType::TarLz)),
        ("a.7z", Some(ArchiveType::SevenZ)),
        ("a.txt", None),
        ("zip", None),
        ("", None),
    ] {
        assert_eq!(ArchiveType::from_extension(name), expected);
    }
}

#[test]
fn every_format_has_its_usual_suffix() {
    assert_eq!(ArchiveType::all().len(), 10);
    for t in ArchiveType::all() {
        let name = format!("archive{}", t.extension());
        assert_eq!(ArchiveType::from_extension(&name), Some(t));
        assert!(t.extensions()[0].eq_ignore_ascii_case(t.extension()));
        for suffix in t.extensions() {
            assert_eq!(ArchiveType::from_extension(&format!("x{suffix}")), Some(t));
        }
    }
}

#[test]
fn first_bytes_stand_for_formats() {
    assert_eq!(ArchiveType::from_magic(b"PK\x03\x04rest"), Some(ArchiveType::Zip));
    assert_eq!(ArchiveType::from_magic(b"7z\xbc\xaf\x27\x1c"), Some(ArchiveType::SevenZ));
    assert_eq!(ArchiveType::from_magic(b"\x1f\x8b\x08\x00"), Some(ArchiveType::TarGz));
    assert_eq!(ArchiveType::from_magic(b"BZh91AY&SY"), Some(ArchiveType::TarBz2));
    assert_eq!(ArchiveType::from_magic(b"\xfd7zXZ\x00\x00"), Some(ArchiveType::TarXz));
    assert_eq!(ArchiveType::from_magic(b"\x28\xb5\x2f\xfd"), Some(ArchiveType::TarZst));
    assert_eq!(ArchiveType::from_magic(b"LZIP\x01\x0c"), Some(ArchiveType::TarLz));
    assert_eq!(ArchiveType::from_magic(b"\x1f\x9d\x90"), Some(ArchiveType::TarZ));
    let mut tar = vec![0u8; 512];
    tar[257..262].copy_from_slice(b"ustar");
    assert_eq!(ArchiveType::from_magic(&tar), Some(ArchiveType::Tar));
    assert_eq!(ArchiveType::from_magic(b"plain text"), None);
    assert_eq!(ArchiveType::from_magic(b""), None);
}

#[test]
fn only_unix_compress_cannot_be_written() {
    for t in ArchiveType::all() {
        assert_eq!(t.can_write(), t != ArchiveType::TarZ);
    }
    assert!(!Wrapper::Compress.can_write());
    assert!(Wrapper::Plain.can_write());
}

#[test]
fn formats_are_told_apart() {
    assert!(ArchiveType::Zip.dispatch() == Dispatch::Zip);
    assert!(ArchiveType::SevenZ.dispatch() == Dispatch::SevenZ);
    assert!(ArchiveType::TarXz.dispatch() == Dispatch::Tarball(Wrapper::Xz));
    let all = ArchiveType::all();
    for a in all {
        for b in all {
            assert_eq!(a.dispatch() == b.dispatch(), a == b);
        }
    }
}

#[test]
fn a_set_type_comes_before_bytes_and_bytes_before_the_name() {
    let plain = Archive::new("x.7z".to_string());
    assert_eq!(plain.resolve_for_read(Some(b"PK\x03\x04"), Some("x.7z")), Ok(ArchiveType::Zip));
    assert_eq!(plain.resolve_for_read(Some(b"????"), Some("x.7z")), Ok(ArchiveType::SevenZ));
    assert_eq!(plain.resolve_for_read(None, Some("x.7z")), Ok(ArchiveType::SevenZ));
    let unknown = UnknownFormat { path: Some("x.7z".to_string()) };
    assert_eq!(plain.resolve_for_read(None, None), Err(unknown.clone()));
    assert_eq!(plain.resolve_for_write(Some("x.7z")), Ok(ArchiveType::SevenZ));
    assert_eq!(plain.resolve_for_write(Some("x")), Err(unknown));
    let set = plain.set_type(ArchiveType::Tar);
    assert_eq!(set.resolve_for_read(Some(b"PK\x03\x04"), Some("x.7z")), Ok(ArchiveType::Tar));
    assert_eq!(set.resolve_for_write(None), Ok(ArchiveType::Tar));
}

#[test]
fn settings_start_plain() {
    let a = Archive::new("p".to_string());
    assert_eq!(a.path(), "p");
    assert_eq!(a.kind, None);
    let e = &a.extract_options;
    assert!(e.restore_symlinks && e.preserve_permissions && e.preserve_timestamps && !e.strip_root);
    assert_eq!((e.threads, e.strip_components, e.selection.len()), (None, 0, 0));
    assert!(e.unsafe_entries == UnsafeEntries::Refuse && e.ownership == Ownership::Ignore);
    let c = &a.create_options;
    assert_eq!((c.level, c.method, c.threads, c.volume_size, c.sparse), (Level::Default, None, None, None, false));
    assert_eq!(c.encryption, EncryptionMethod::Aes256);
    assert!(c.password.is_none() && e.password.is_none());
}

#[test]
fn settings_change_what_they_name() {
    let a = Archive::new("p".to_string())
        .set_level(Level::Best)
        .set_method(Method::Bzip2)
        .set_threads(Some(3))
        .set_volume_size(65_536)
        .set_selection(vec!["a".to_string()])
        .set_password(Password::from_text("pw"))
        .set_encryption(EncryptionMethod::ZipCrypto)
        .set_unsafe_entries(UnsafeEntries::Skip)
        .set_strip_components(2)
        .set_strip_root(true)
        .set_sparse(true)
        .set_restore_symlinks(false)
        .set_preserve_permissions(false)
        .set_preserve_timestamps(false)
        .set_ownership(Ownership::Ids)
        .set_overwrite(Overwrite::Never);
    let e = &a.extract_options;
    assert_eq!((e.threads, e.strip_components, e.strip_root), (Some(3), 2, true));
    assert_eq!(e.selection, vec!["a".to_string()]);
    assert_eq!(e.password.as_ref().map(|p| p.as_bytes().to_vec()), Some(b"pw".to_vec()));
    assert!(!e.restore_symlinks && !e.preserve_permissions && !e.preserve_timestamps);
    assert!(e.ownership == Ownership::Ids && e.overwrite == Overwrite::Never && e.unsafe_entries == UnsafeEntries::Skip);
    let c = &a.create_options;
    assert_eq!((c.level, c.method, c.threads), (Level::Best, Some(Method::Bzip2), Some(3)));
    assert_eq!((c.volume_size, c.sparse, c.encryption), (Some(65_536), true, EncryptionMethod::ZipCrypto));
    assert_eq!(c.password.as_ref().map(|p| p.as_bytes().to_vec()), Some(b"pw".to_vec()));
    let b = a.with_extract_options(ExtractOptions::default()).with_create_options(CreateOptions::default());
    assert_eq!(b.extract_options.threads, None);
    assert_eq!(b.create_options.method, None);
}

#[test]
fn methods_have_codes() {
    for code in 0..=255u16 {
        if let Ok(m) = Method::from_code(code) {
            assert_eq!(m.code(), code);
        } else {
            assert_eq!(
                Method::from_code(code),
                Err(Error::Unsupported(Unsupported::CompressionMethod(code))),
            );
        }
    }
    assert_eq!(Method::from_code(8), Ok(Method::Deflate));
    assert_eq!(Method::from_code(93), Ok(Method::Zstd));
    assert_eq!(Method::from_code(98), Ok(Method::Ppmd));
    assert_eq!(Method::default(), Method::Deflate);
}

#[test]
fn levels_have_settings() {
    assert_eq!(Level::Fast.search_depth(), 8);
    assert_eq!(Level::Best.bzip2_block_size(), 9);
    assert_eq!(Level::default(), Level::Default);
}

#[test]
fn what_a_method_writes_it_reads() {
    let data = b"method method method method".repeat(20);
    for method in [Method::Store, Method::Deflate, Method::Bzip2] {
        assert!(method.can_encode());
        let mut e = codecs::encoder(method, Vec::new(), Level::Default).unwrap();
        e.push(&data[..100]);
        e.push(&data[100..]);
        let (packed, total) = e.finish();
        assert_eq!(total, packed.len() as u64);
        let mut out = Vec::new();
        let mut buf = [0u8; 64];
        match codecs::decoder(method, packed, data.len() as u64, 0).unwrap() {
            Decoder::Ready(v) => out = v,
            Decoder::Inflate(mut r) => loop {
                let n = r.read(&mut buf).unwrap();
                if n == 0 {
                    break;
                }
                out.extend_from_slice(&buf[..n]);
            },
            Decoder::Bzip2(mut r) => loop {
                let n = r.read(&mut buf).unwrap();
                if n == 0 {
                    break;
                }
                out.extend_from_slice(&buf[..n]);
            },
            _ => unreachable!(),
        }
        assert_eq!(out, data);
    }
    assert!(!Method::Lzma.can_encode());
    assert!(codecs::encoder(Method::Lzma, Vec::new(), Level::Default).is_err());
}

#[test]
fn every_listed_suffix_leads_back_to_its_format() {
    let mut seen: Vec<String> = Vec::new();
    for t in ArchiveType::all() {
        for suffix in t.extensions() {
            assert_eq!(ArchiveType::from_extension(&format!("some.name{}", suffix)), Some(t));
            assert!(!seen.contains(&suffix.to_string()));
            seen.push(suffix.to_string());
        }
    }
    assert_eq!(seen.len(), 40);
}

#[test]
fn an_encoder_works_at_its_level() {
    let data = b"level level level level".repeat(50);
    for level in [Level::Stored, Level::Fast, Level::Default, Level::Best] {
        let mut e = codecs::encoder(Method::Deflate, Vec::new(), level).unwrap();
        e.push(&data);
        let (packed, _) = e.finish();
        let mut alone = codecs::deflate::compress::DeflateEncoder::new(Vec::new(), level);
        alone.write(&data);
        assert_eq!(packed, alone.finish_inner());
        let mut e = codecs::encoder(Method::Bzip2, Vec::new(), level).unwrap();
        e.push(&data);
        let (packed, _) = e.finish();
        assert_eq!(packed[3], b'0' + level.bzip2_block_size());
        assert_eq!(packed, codecs::bzip2::encode::compress(&data, level.bzip2_block_size()));
    }
}

#[test]
fn an_unknown_format_names_the_archive() {
    let a = Archive::new("dir/what".to_string());
    assert_eq!(a.resolve_for_write(Some("what")).unwrap_err().path, Some("dir/what".to_string()));
    assert_eq!(a.resolve_for_read(Some(b"none"), None).unwrap_err().path, Some("dir/what".to_string()));
}
