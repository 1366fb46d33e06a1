use virtual_filesystem::{NoDecompression, Vfs, VfsError, ZStdDecompression};

/// Build an in-memory tar archive holding the given files.
fn tar_archive(files: &[(&str, &[u8])]) -> Vec<u8> {
    let mut builder = tar::Builder::new(Vec::new());
    for (name, data) in files {
        let mut header = tar::Header::new_gnu();
        header.set_size(data.len() as u64);
        header.set_cksum();
        builder.append_data(&mut header, *name, *data).unwrap();
    }
    builder.into_inner().unwrap()
}

#[test]
fn lib_empty_archive() {
    let empty_archive = vec![];
    let vfs_result = Vfs::new::<NoDecompression>(empty_archive);
    assert!(
        vfs_result.is_ok(),
        "Failed to create file system from empty archive"
    );
    let _vfs = vfs_result.unwrap();
}

#[test]
fn vfs_empty_archive() {
    let empty_archive = vec![];
    let vfs_result = Vfs::new::<NoDecompression>(empty_archive);
    assert!(
        vfs_result.is_ok(),
        "Failed to create file system from empty archive"
    );
    let _vfs = vfs_result.unwrap();
}

#[test]
fn lib_single_file_archive() {
    let archive = tar_archive(&[("foo.txt", b"foo foo foo\n")]);

    let vfs_result = Vfs::new::<NoDecompression>(archive);
    assert!(
        vfs_result.is_ok(),
        "Failed to create file system from empty archive"
    );
    let vfs = vfs_result.unwrap();

    let read_result = vfs.read(&b"foo.txt".to_vec());
    assert!(read_result.is_ok(), "Failed to read file from vfs");
    let actual_data = read_result.unwrap();
    let expected_data = "foo foo foo\n".as_bytes();
    assert_eq!(actual_data, expected_data, "Contents were not equal");
}

#[test]
fn vfs_single_file_archive() {
    let archive = tar_archive(&[("foo.txt", b"foo foo foo\n")]);

    let vfs_result = Vfs::new::<NoDecompression>(archive);
    assert!(
        vfs_result.is_ok(),
        "Failed to create file system from empty archive"
    );
    let vfs = vfs_result.unwrap();

    let read_result = vfs.read(&b"foo.txt".to_vec());
    assert!(read_result.is_ok(), "Failed to read file from vfs");
    let actual_data = read_result.unwrap();
    let expected_data = "foo foo foo\n".as_bytes();
    assert_eq!(actual_data, expected_data, "Contents were not equal");
}

#[test]
fn open_file_non_existent_file() {
    let archive = tar_archive(&[("foo.txt", b"foo foo foo\n")]);

    let vfs_result = Vfs::new::<NoDecompression>(archive);
    assert!(
        vfs_result.is_ok(),
        "Failed to create file system from empty archive"
    );
    let mut vfs = vfs_result.unwrap();

    let open_result = vfs.open(&b"bar.txt".to_vec());
    assert_eq!(open_result.unwrap_err(), VfsError::FileNotFound);
}

#[test]
fn two_files_in_archive() {
    let archive = tar_archive(&[
        ("foo.txt", b"foo foo foo\n"),
        ("bar.txt", b"bar bar\n"),
    ]);

    let vfs_result = Vfs::new::<NoDecompression>(archive);
    assert!(
        vfs_result.is_ok(),
        "Failed to create file system from empty archive"
    );
    let vfs = vfs_result.unwrap();

    let foo_read_result = vfs.read(&b"foo.txt".to_vec());
    let bar_read_result = vfs.read(&b"bar.txt".to_vec());

    assert!(foo_read_result.is_ok(), "Failed to read foo.txt from vfs");
    assert!(bar_read_result.is_ok(), "Failed to read bar.txt from vfs");

    let foo_actual_data = foo_read_result.unwrap();
    let bar_actual_data = bar_read_result.unwrap();

    let foo_expected_data = "foo foo foo\n".as_bytes();
    let bar_expected_data = "bar bar\n".as_bytes();

    assert_eq!(
        foo_actual_data, foo_expected_data,
        "Contents of `foo.txt` is not correct"
    );
    assert_eq!(
        bar_actual_data, bar_expected_data,
        "Contents of `bar.txt` is not correct"
    );
}

#[test]
fn empty_archive_read_fails_with_file_not_found() {
    let vfs = Vfs::new::<NoDecompression>(vec![]).unwrap();
    assert_eq!(
        vfs.read(&b"anything".to_vec()).unwrap_err(),
        VfsError::FileNotFound
    );
    assert_eq!(vfs.read(&b"".to_vec()).unwrap_err(), VfsError::FileNotFound);
}

#[test]
fn two_file_round_trip_independent_of_order() {
    let forward = tar_archive(&[
        ("foo.txt", b"foo foo foo\n"),
        ("bar.txt", b"bar bar\n"),
    ]);
    let backward = tar_archive(&[
        ("bar.txt", b"bar bar\n"),
        ("foo.txt", b"foo foo foo\n"),
    ]);

    for archive in [forward, backward] {
        let vfs = Vfs::new::<NoDecompression>(archive).unwrap();
        assert_eq!(
            vfs.read(&b"foo.txt".to_vec()).unwrap(),
            b"foo foo foo\n".to_vec()
        );
        assert_eq!(
            vfs.read(&b"bar.txt".to_vec()).unwrap(),
            b"bar bar\n".to_vec()
        );
    }
}

#[test]
fn duplicate_path_last_entry_wins() {
    let archive = tar_archive(&[
        ("dup.txt", b"first\n"),
        ("other.txt", b"other\n"),
        ("dup.txt", b"second\n"),
    ]);
    let vfs = Vfs::new::<NoDecompression>(archive).unwrap();
    assert_eq!(vfs.read(&b"dup.txt".to_vec()).unwrap(), b"second\n".to_vec());
    assert_eq!(
        vfs.read(&b"other.txt".to_vec()).unwrap(),
        b"other\n".to_vec()
    );
}

#[test]
fn open_twice_yields_distinct_fds_with_same_contents() {
    let archive = tar_archive(&[("foo.txt", b"foo foo foo\n")]);
    let mut vfs = Vfs::new::<NoDecompression>(archive).unwrap();

    let fd1 = vfs.open(&b"foo.txt".to_vec()).unwrap();
    let fd2 = vfs.open(&b"foo.txt".to_vec()).unwrap();
    assert_ne!(fd1, fd2);

    assert_eq!(vfs.read_fd(fd1).unwrap(), b"foo foo foo\n".to_vec());
    assert_eq!(vfs.read_fd(fd2).unwrap(), b"foo foo foo\n".to_vec());

    vfs.close(fd1).unwrap();
    assert_eq!(vfs.read_fd(fd1).unwrap_err(), VfsError::BadFileDescriptor);
    assert_eq!(vfs.read_fd(fd2).unwrap(), b"foo foo foo\n".to_vec());
    assert_eq!(
        vfs.read(&b"foo.txt".to_vec()).unwrap(),
        b"foo foo foo\n".to_vec()
    );
}

#[test]
fn failed_open_allocates_no_fd() {
    let archive = tar_archive(&[("foo.txt", b"foo foo foo\n")]);
    let mut vfs = Vfs::new::<NoDecompression>(archive).unwrap();

    assert_eq!(
        vfs.open(&b"missing.txt".to_vec()).unwrap_err(),
        VfsError::FileNotFound
    );
    let fd1 = vfs.open(&b"foo.txt".to_vec()).unwrap();
    assert_eq!(
        vfs.open(&b"missing.txt".to_vec()).unwrap_err(),
        VfsError::FileNotFound
    );
    let fd2 = vfs.open(&b"foo.txt".to_vec()).unwrap();
    assert_eq!(fd1, 0);
    assert_eq!(fd2, 1);
}

#[test]
fn unissued_or_closed_fd_is_rejected() {
    let archive = tar_archive(&[("foo.txt", b"foo foo foo\n")]);
    let mut vfs = Vfs::new::<NoDecompression>(archive).unwrap();

    assert_eq!(vfs.read_fd(7).unwrap_err(), VfsError::BadFileDescriptor);
    assert_eq!(vfs.close(7).unwrap_err(), VfsError::BadFileDescriptor);

    let fd = vfs.open(&b"foo.txt".to_vec()).unwrap();
    vfs.close(fd).unwrap();
    assert_eq!(vfs.read_fd(fd).unwrap_err(), VfsError::BadFileDescriptor);
    assert_eq!(vfs.close(fd).unwrap_err(), VfsError::BadFileDescriptor);
}

#[test]
fn many_opens_mint_strictly_increasing_fds() {
    let archive = tar_archive(&[("foo.txt", b"foo foo foo\n")]);
    let mut vfs = Vfs::new::<NoDecompression>(archive).unwrap();

    let mut last = None;
    for _ in 0..100 {
        let fd = vfs.open(&b"foo.txt".to_vec()).unwrap();
        if let Some(prev) = last {
            assert!(fd > prev, "descriptor values must never repeat");
        }
        last = Some(fd);
    }
}

#[test]
fn open_fds_tracks_descriptors_per_path() {
    let archive = tar_archive(&[
        ("foo.txt", b"foo foo foo\n"),
        ("bar.txt", b"bar bar\n"),
    ]);
    let mut vfs = Vfs::new::<NoDecompression>(archive).unwrap();

    let fd1 = vfs.open(&b"foo.txt".to_vec()).unwrap();
    let fd2 = vfs.open(&b"foo.txt".to_vec()).unwrap();
    let fd3 = vfs.open(&b"bar.txt".to_vec()).unwrap();

    let foo_fds = vfs.open_fds(&b"foo.txt".to_vec());
    assert_eq!(foo_fds.len(), 2);
    assert!(foo_fds.contains(&fd1) && foo_fds.contains(&fd2));

    let bar_fds = vfs.open_fds(&b"bar.txt".to_vec());
    assert_eq!(bar_fds, vec![fd3]);

    vfs.close(fd1).unwrap();
    assert_eq!(vfs.open_fds(&b"foo.txt".to_vec()), vec![fd2]);
    assert!(vfs.open_fds(&b"missing.txt".to_vec()).is_empty());
}

#[test]
fn zstd_archive_round_trip() {
    let archive = tar_archive(&[("foo.txt", b"foo foo foo\n")]);
    let compressed = zstd::stream::encode_all(&archive[..], 0).unwrap();
    assert_ne!(compressed, archive);

    let vfs = Vfs::new::<ZStdDecompression>(compressed).unwrap();
    assert_eq!(
        vfs.read(&b"foo.txt".to_vec()).unwrap(),
        b"foo foo foo\n".to_vec()
    );
}

#[test]
fn zstd_corrupt_input_fails_with_decompress_error() {
    let garbage = vec![0x01, 0x02, 0x03, 0x04];
    assert_eq!(
        Vfs::new::<ZStdDecompression>(garbage).unwrap_err(),
        VfsError::DecompressError
    );
}

#[test]
fn malformed_archive_fails_with_ingest_error() {
    let garbage = vec![0xFF; 512];
    assert_eq!(
        Vfs::new::<NoDecompression>(garbage).unwrap_err(),
        VfsError::IngestError
    );
}
