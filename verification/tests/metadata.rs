use vecls::attrs::{
    full_mask, vf_io_error, AttrMask, ErrorKind, VfAttrs, VfError, VfFault, ATTR_ATIME,
    ATTR_BLOCKS, ATTR_CTIME, ATTR_FILEID, ATTR_GID, ATTR_MODE, ATTR_MTIME, ATTR_NAMED_ATTR,
    ATTR_NLINK, ATTR_RDEV, ATTR_SIZE, ATTR_UID, ERR_ACCES, ERR_EXIST, ERR_INVAL, ERR_ISDIR,
    ERR_NOENT, ERR_NOTDIR,
};
use vecls::config::{Config, Dereference, Files, Format, SizeFormat, Sort, TimeField};
use vecls::entry_order::{ls_time, vf_time};
use vecls::error::{context_message, errno, ContextMessage, LsError};
use vecls::meta::{
    DirEntry, IoFailure, LsDirEntry, LsFileType, LsMeta, LsReadDir, StdFileType, StdMetadata,
    Timestamp,
};

fn config() -> Config {
    Config {
        format: Format::Columns,
        files: Files::Normal,
        sort: Sort::Name,
        time: TimeField::Modification,
        dereference: Dereference::Never,
        size_format: SizeFormat::Bytes,
        block_size: 1024,
        recursive: false,
        reverse: false,
        directory: false,
        group_directories_first: false,
        alloc_size: false,
        dired: false,
        hyperlink: false,
        context: false,
        locale_collation: false,
    }
}

fn no_type() -> StdFileType {
    StdFileType {
        is_dir: false,
        is_file: false,
        is_symlink: false,
        is_block_device: false,
        is_char_device: false,
        is_fifo: false,
        is_socket: false,
    }
}

fn std_meta() -> StdMetadata {
    StdMetadata {
        file_type: StdFileType { is_file: true, ..no_type() },
        len: 7,
        nlink: 2,
        uid: 3,
        gid: 4,
        rdev: 5,
        ino: 6,
        blocks: 8,
        mode: 0o644,
        modified: Some(Timestamp { secs: 10, nanos: 1 }),
        accessed: None,
        created: Some(Timestamp { secs: 12, nanos: 3 }),
        ctime_sec: 13,
        ctime_nsec: 4,
    }
}

fn attrs(bits: u32) -> VfAttrs {
    VfAttrs {
        path: Some(b"/d/f".to_vec()),
        ftype: 1,
        returned: AttrMask { bits },
        size: 17,
        nlink: 12,
        uid: 13,
        gid: 14,
        rdev: 15,
        fileid: 16,
        blocks: 18,
        mode: 0o755,
        atime_sec: 20,
        atime_nsec: 2,
        mtime_sec: 21,
        mtime_nsec: 1_000_000_001,
        ctime_sec: -1,
        ctime_nsec: 5,
    }
}

#[test]
fn types_of_codes() {
    let expected = [
        (0, LsFileType::Unknown),
        (1, LsFileType::File),
        (2, LsFileType::Dir),
        (3, LsFileType::Unknown),
        (4, LsFileType::Unknown),
        (5, LsFileType::Symlink),
        (6, LsFileType::BlockDevice),
        (7, LsFileType::CharDevice),
        (8, LsFileType::Fifo),
        (9, LsFileType::Socket),
        (10, LsFileType::Unknown),
    ];
    for (code, t) in expected {
        assert_eq!(LsFileType::from_ftype(code), t);
    }
    assert!(LsFileType::Dir.is_dir() && !LsFileType::File.is_dir());
    assert!(LsFileType::File.is_file() && !LsFileType::Dir.is_file());
    assert!(LsFileType::Symlink.is_symlink() && !LsFileType::Dir.is_symlink());
    assert!(LsFileType::BlockDevice.is_block_device() && !LsFileType::Dir.is_block_device());
    assert!(LsFileType::CharDevice.is_char_device() && !LsFileType::Dir.is_char_device());
    assert!(LsFileType::Fifo.is_fifo() && !LsFileType::Dir.is_fifo());
    assert!(LsFileType::Socket.is_socket() && !LsFileType::Dir.is_socket());
}

#[test]
fn types_of_local_files() {
    let t = no_type();
    assert_eq!(LsFileType::from_std(t), LsFileType::Unknown);
    assert_eq!(LsFileType::from_std(StdFileType { is_dir: true, ..t }), LsFileType::Dir);
    assert_eq!(LsFileType::from_std(StdFileType { is_file: true, ..t }), LsFileType::File);
    assert_eq!(LsFileType::from_std(StdFileType { is_symlink: true, ..t }), LsFileType::Symlink);
    assert_eq!(
        LsFileType::from_std(StdFileType { is_block_device: true, ..t }),
        LsFileType::BlockDevice
    );
    assert_eq!(
        LsFileType::from_std(StdFileType { is_char_device: true, ..t }),
        LsFileType::CharDevice
    );
    assert_eq!(LsFileType::from_std(StdFileType { is_fifo: true, ..t }), LsFileType::Fifo);
    assert_eq!(LsFileType::from_std(StdFileType { is_socket: true, ..t }), LsFileType::Socket);
}

#[test]
fn local_metadata_is_told_as_it_is() {
    let m = LsMeta::Std(std_meta());
    assert_eq!((m.len(), m.nlink(), m.uid(), m.gid()), (7, 2, 3, 4));
    assert_eq!((m.rdev(), m.ino(), m.blocks(), m.mode()), (5, 6, 8, 0o644));
    assert_eq!(m.file_type(), LsFileType::File);
    assert!(!m.is_dir());
    assert_eq!(m.mtime(), Timestamp { secs: 10, nanos: 1 });
    assert_eq!(m.atime(), Timestamp { secs: 0, nanos: 0 });
    assert_eq!(m.ctime(), Timestamp { secs: 13, nanos: 4 });
    assert_eq!(m.as_std_metadata(), Some(&std_meta()));
}

#[test]
fn reported_metadata_counts_where_it_was_returned() {
    let all = ATTR_MODE | ATTR_SIZE | ATTR_NLINK | ATTR_FILEID | ATTR_BLOCKS | ATTR_UID | ATTR_GID
        | ATTR_RDEV | ATTR_ATIME | ATTR_MTIME | ATTR_CTIME;
    let m = LsMeta::Vf(attrs(all));
    assert_eq!((m.len(), m.nlink(), m.uid(), m.gid()), (17, 12, 13, 14));
    assert_eq!((m.rdev(), m.ino(), m.blocks(), m.mode()), (15, 16, 18, 0o755));
    assert_eq!(m.mtime(), Timestamp { secs: 22, nanos: 1 });
    assert_eq!(m.atime(), Timestamp { secs: 20, nanos: 2 });
    assert_eq!(m.ctime(), Timestamp { secs: -1, nanos: 5 });
    assert!(m.as_std_metadata().is_none());
    let none = LsMeta::Vf(attrs(0));
    assert_eq!((none.len(), none.nlink(), none.uid(), none.gid()), (0, 1, 0, 0));
    assert_eq!((none.rdev(), none.ino(), none.blocks(), none.mode()), (0, 0, 0, 0));
    assert_eq!(none.mtime(), Timestamp { secs: 0, nanos: 0 });
    assert_eq!(none.file_type(), LsFileType::File);
}

#[test]
fn times_of_listings() {
    let std = LsMeta::Std(std_meta());
    assert_eq!(ls_time(&std, TimeField::Birth), Some(Timestamp { secs: 12, nanos: 3 }));
    assert_eq!(ls_time(&std, TimeField::Change), Some(Timestamp { secs: 13, nanos: 4 }));
    assert_eq!(ls_time(&std, TimeField::Modification), Some(Timestamp { secs: 10, nanos: 1 }));
    assert_eq!(ls_time(&std, TimeField::Access), Some(Timestamp { secs: 0, nanos: 0 }));
    let a = attrs(ATTR_CTIME);
    assert_eq!(ls_time(&LsMeta::Vf(attrs(ATTR_CTIME)), TimeField::Birth), None);
    assert_eq!(vf_time(&a, TimeField::Birth), None);
    // What was not returned does not count, and times before 1970 do.
    assert_eq!(vf_time(&a, TimeField::Access), Some(Timestamp { secs: 0, nanos: 0 }));
    assert_eq!(vf_time(&a, TimeField::Modification), Some(Timestamp { secs: 0, nanos: 0 }));
    assert_eq!(vf_time(&a, TimeField::Change), Some(Timestamp { secs: -1, nanos: 5 }));
    let b = attrs(ATTR_ATIME | ATTR_MTIME);
    assert_eq!(vf_time(&b, TimeField::Access), Some(Timestamp { secs: 20, nanos: 2 }));
    assert_eq!(vf_time(&b, TimeField::Modification), Some(Timestamp { secs: 22, nanos: 1 }));
    assert_eq!(
        ls_time(&LsMeta::Vf(a), TimeField::Change),
        Some(Timestamp { secs: -1, nanos: 5 })
    );
}

#[test]
fn found_metadata_is_wrapped() {
    let failure = IoFailure { kind: ErrorKind::NotFound, raw_os_error: Some(2), backend: None };
    assert!(matches!(LsMeta::from_path(Ok(std_meta())), Ok(LsMeta::Std(m)) if m == std_meta()));
    assert!(matches!(LsMeta::from_path(Err(failure)), Err(e) if e == failure));
}

#[test]
fn directories_hand_out_their_entries_in_order() {
    let failure = IoFailure { kind: ErrorKind::Other, raw_os_error: None, backend: None };
    let entry = |name: &[u8]| {
        LsDirEntry::Std(DirEntry { path: name.to_vec(), name: name.to_vec(), file_type: None })
    };
    let mut rd = LsReadDir::from_std(vec![Ok(entry(b"a")), Err(failure), Ok(entry(b"b"))]);
    assert!(matches!(rd.next(), Some(Ok(LsDirEntry::Std(d))) if d.name == b"a"));
    assert!(matches!(rd.next(), Some(Err(e)) if e == failure));
    assert!(matches!(rd.next(), Some(Ok(LsDirEntry::Std(d))) if d.name == b"b"));
    assert!(rd.next().is_none());
    assert!(rd.next().is_none());
    let mut rd = LsReadDir::from_vf(vec![entry(b"x"), entry(b"y")]);
    assert!(matches!(rd.next(), Some(Ok(LsDirEntry::Std(d))) if d.name == b"x"));
    assert!(matches!(rd.next(), Some(Ok(LsDirEntry::Std(d))) if d.name == b"y"));
    assert!(rd.next().is_none());
}

#[test]
fn mask_asks_for_named_attributes_in_long_format_only() {
    let short = full_mask(&config());
    assert_eq!(short.bits, 0x7ff);
    let long = full_mask(&Config { format: Format::Long, ..config() });
    assert_eq!(long.bits, 0xfff);
    assert!(short.contains(ATTR_SIZE) && short.contains(ATTR_CTIME | ATTR_MODE));
    assert!(!short.contains(ATTR_NAMED_ATTR) && long.contains(ATTR_NAMED_ATTR));
}

#[test]
fn backend_errors_become_file_errors() {
    let op = |err_no: i32| VfError { fault: VfFault::Op { err_no }, index: Some(3) };
    let kinds = [
        (ERR_NOENT, ErrorKind::NotFound),
        (ERR_ACCES, ErrorKind::PermissionDenied),
        (ERR_EXIST, ErrorKind::AlreadyExists),
        (ERR_INVAL, ErrorKind::InvalidInput),
        (ERR_NOTDIR, ErrorKind::NotADirectory),
        (ERR_ISDIR, ErrorKind::IsADirectory),
        (5, ErrorKind::Other),
    ];
    for (n, kind) in kinds {
        let e = vf_io_error(op(n));
        assert_eq!(e.kind, kind);
        assert_eq!(e.source, op(n));
    }
    let lost = VfError { fault: VfFault::Transport, index: None };
    assert_eq!(vf_io_error(lost).kind, ErrorKind::ConnectionRefused);
    let odd = VfError { fault: VfFault::Other, index: None };
    assert_eq!(vf_io_error(odd).kind, ErrorKind::Other);
    // A failure keeps what the backend said, with the operation that it struck.
    let f = IoFailure::from_backend(op(ERR_NOENT));
    assert_eq!((f.kind, f.raw_os_error), (ErrorKind::NotFound, None));
    assert_eq!(f.backend, Some(op(ERR_NOENT)));
}

#[test]
fn exit_codes_tell_minor_from_serious_trouble() {
    let f = IoFailure { kind: ErrorKind::NotFound, raw_os_error: Some(2), backend: None };
    assert_eq!(LsError::IOError(f).code(), 1);
    assert_eq!(LsError::WriteError(f).code(), 1);
    assert_eq!(LsError::IOErrorContext(b"x".to_vec(), f, false).code(), 1);
    assert_eq!(LsError::IOErrorContext(b"x".to_vec(), f, true).code(), 2);
    assert_eq!(LsError::AlreadyListedError(b"x".to_vec()).code(), 2);
    assert_eq!(LsError::InvalidLineWidth("x".to_string()).code(), 2);
    assert_eq!(LsError::BlockSizeParseError("x".to_string()).code(), 2);
    assert_eq!(LsError::InvalidTabSize("x".to_string()).code(), 2);
    assert_eq!(LsError::DiredAndZeroAreIncompatible.code(), 2);
    assert_eq!(LsError::TimeStyleParseError("x".to_string()).code(), 2);
}

#[test]
fn failures_are_worded_by_kind_and_number() {
    let f = |kind, raw_os_error| IoFailure { kind, raw_os_error, backend: None };
    assert_eq!(context_message(f(ErrorKind::NotADirectory, Some(20)), false), ContextMessage::NotDirectory);
    assert_eq!(context_message(f(ErrorKind::NotFound, Some(2)), false), ContextMessage::NoSuchFile);
    assert_eq!(context_message(f(ErrorKind::PermissionDenied, Some(1)), true), ContextMessage::OperationNotPermitted);
    assert_eq!(context_message(f(ErrorKind::PermissionDenied, None), true), ContextMessage::OperationNotPermitted);
    assert_eq!(
        context_message(f(ErrorKind::PermissionDenied, Some(13)), true),
        ContextMessage::DirectoryPermissionDenied
    );
    assert_eq!(context_message(f(ErrorKind::PermissionDenied, Some(13)), false), ContextMessage::FilePermissionDenied);
    assert_eq!(context_message(f(ErrorKind::Other, Some(9)), false), ContextMessage::BadDescriptor);
    assert_eq!(context_message(f(ErrorKind::Other, Some(5)), false), ContextMessage::UnknownIoError);
    assert_eq!(errno(f(ErrorKind::Other, None)), 1);
}
