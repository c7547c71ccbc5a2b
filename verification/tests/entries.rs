use vecls::attrs::{AttrMask, ErrorKind, VfAttrs, ATTR_MODE, ATTR_SIZE};
use vecls::config::{Config, Dereference, Files, Format, SizeFormat, Sort, TimeField};
use vecls::entry::{
    file_is_executable, wants_link, MetaReply, MetaRequest, PathData, PathDataDisplayName,
};
use vecls::error::LsError;
use vecls::meta::{DirEntry, IoFailure, LsFileType, LsMeta, StdFileType, StdMetadata};
use vecls::security::{
    context_source, get_security_context, selinux_text, ContextReply, ContextSource, ContextWarning,
};

fn config(dereference: Dereference) -> Config {
    Config {
        format: Format::Columns,
        files: Files::Normal,
        sort: Sort::Name,
        time: TimeField::Modification,
        dereference,
        size_format: SizeFormat::Bytes,
        block_size: 1024,
        recursive: false,
        reverse: false,
        directory: false,
        group_directories_first: false,
        alloc_size: false,
        dired: false,
        hyperlink: false,
        context: true,
        locale_collation: false,
    }
}

fn file_type(is_dir: bool, is_symlink: bool) -> StdFileType {
    StdFileType {
        is_dir,
        is_file: !is_dir && !is_symlink,
        is_symlink,
        is_block_device: false,
        is_char_device: false,
        is_fifo: false,
        is_socket: false,
    }
}

fn meta(is_dir: bool, mode: u32) -> StdMetadata {
    StdMetadata {
        file_type: file_type(is_dir, false),
        len: 1,
        nlink: 1,
        uid: 0,
        gid: 0,
        rdev: 0,
        ino: 1,
        blocks: 8,
        mode,
        modified: None,
        accessed: None,
        created: None,
        ctime_sec: 0,
        ctime_nsec: 0,
    }
}

fn attrs() -> VfAttrs {
    VfAttrs {
        path: Some(b"/d/f".to_vec()),
        ftype: 2,
        returned: AttrMask { bits: ATTR_SIZE | ATTR_MODE },
        size: 9,
        nlink: 0,
        uid: 0,
        gid: 0,
        rdev: 0,
        fileid: 0,
        blocks: 0,
        mode: 0o700,
        atime_sec: 0,
        atime_nsec: 0,
        mtime_sec: 0,
        mtime_nsec: 0,
        ctime_sec: 0,
        ctime_nsec: 0,
    }
}

fn operand(path: &[u8], config: &Config, target: Option<StdMetadata>) -> PathData {
    PathData::new(path.to_vec(), None, None, config, true, false, target)
}

const BAD_DESCRIPTOR: IoFailure = IoFailure { kind: ErrorKind::Other, raw_os_error: Some(9), backend: None };

#[test]
fn links_are_followed_as_configured() {
    let dir = Some(meta(true, 0));
    let file = Some(meta(false, 0));
    let never = config(Dereference::Never);
    assert!(!operand(b"l", &never, dir).must_dereference);
    assert!(operand(b".", &never, None).must_dereference);
    assert!(operand(b"..", &never, None).must_dereference);
    assert!(operand(b"/", &never, None).must_dereference);
    let dir_args = config(Dereference::DirArgs);
    assert!(operand(b"l", &dir_args, dir).must_dereference);
    assert!(!operand(b"l", &dir_args, file).must_dereference);
    assert!(!operand(b"l", &dir_args, None).must_dereference);
    assert!(operand(b"l", &config(Dereference::Args), None).must_dereference);
    assert!(operand(b"l", &config(Dereference::All), None).must_dereference);
    let inner = |c: &Config| PathData::new(b"l".to_vec(), None, None, c, false, false, dir);
    assert!(!inner(&config(Dereference::Args)).must_dereference);
    assert!(!inner(&dir_args).must_dereference);
    assert!(inner(&config(Dereference::All)).must_dereference);
}

#[test]
fn targets_are_looked_at_where_they_matter() {
    let needs = PathData::needs_target;
    assert!(needs(b"l", false, &config(Dereference::DirArgs), true));
    assert!(!needs(b"l", true, &config(Dereference::DirArgs), false));
    assert!(needs(b"l", true, &config(Dereference::All), false));
    assert!(!needs(b"l", false, &config(Dereference::All), false));
    assert!(!needs(b"l", true, &config(Dereference::Never), false));
}

#[test]
fn names_shown_and_file_names() {
    let c = config(Dereference::Never);
    let p = operand(b"a/b", &c, None);
    assert!(matches!(p.display_name, PathDataDisplayName::SelfReferential));
    assert_eq!((p.display_name(), p.file_name(), p.path()), (&b"a/b"[..], &b"b"[..], &b"a/b"[..]));
    assert_eq!(operand(b"..", &c, None).file_name(), b"..");
    let de = DirEntry { path: b"d/x".to_vec(), name: b"x".to_vec(), file_type: None };
    let p = PathData::new(b"d/x".to_vec(), Some(de), None, &c, false, false, None);
    assert_eq!((p.display_name(), p.file_name()), (&b"x"[..], &b"x"[..]));
    let dot = PathData::new(b"d".to_vec(), None, Some(b".".to_vec()), &c, false, true, None);
    assert_eq!(dot.display_name(), b".");
    assert!(dot.is_dot_dir);
    let bare = PathData::new(b"d".to_vec(), None, None, &c, false, false, None);
    assert_eq!(bare.display_name(), b"");
}

#[test]
fn metadata_is_asked_for_once() {
    let c = config(Dereference::Never);
    let mut p = operand(b"f", &c, None);
    assert_eq!(p.metadata_request(), MetaRequest::FromPath { dereference: false });
    assert!(p.type_needs_metadata());
    assert!(p.metadata_reply(MetaReply::Found(meta(false, 0o111))).is_none());
    assert_eq!(p.metadata_request(), MetaRequest::Known);
    assert_eq!(p.file_type(), Some(LsFileType::File));
    assert!(p.is_executable_file());
    assert!(p.metadata_reply(MetaReply::Found(meta(true, 0))).is_none());
    assert_eq!(p.file_type(), Some(LsFileType::File));
    let de = DirEntry {
        path: b"d/x".to_vec(),
        name: b"x".to_vec(),
        file_type: Some(file_type(true, false)),
    };
    let mut p = PathData::new(b"d/x".to_vec(), Some(de), None, &c, false, false, None);
    assert_eq!(p.file_type(), Some(LsFileType::Dir));
    assert!(!p.type_needs_metadata());
    assert_eq!(p.metadata_request(), MetaRequest::FromDirEntry);
    assert!(p.metadata_reply(MetaReply::FromDirEntry(None)).is_none());
    assert!(p.metadata().is_none());
    assert_eq!(p.metadata_request(), MetaRequest::Known);
}

#[test]
fn followed_entries_know_their_target() {
    let c = config(Dereference::All);
    let de = || DirEntry {
        path: b"d/l".to_vec(),
        name: b"l".to_vec(),
        file_type: Some(file_type(false, true)),
    };
    let p = PathData::new(b"d/l".to_vec(), Some(de()), None, &c, false, false, Some(meta(true, 0)));
    assert_eq!(p.file_type(), Some(LsFileType::Dir));
    assert!(matches!(p.metadata(), Some(LsMeta::Std(m)) if m.file_type.is_dir));
    let p = PathData::new(b"d/l".to_vec(), Some(de()), None, &c, false, false, None);
    assert_eq!(p.file_type(), Some(LsFileType::Symlink));
    assert_eq!(p.metadata_request(), MetaRequest::FromPath { dereference: true });
}

#[test]
fn failures_to_look_are_reported() {
    let failure = IoFailure { kind: ErrorKind::NotFound, raw_os_error: Some(2), backend: None };
    let mut p = operand(b"gone", &config(Dereference::Args), None);
    match p.metadata_reply(MetaReply::Failed { failure, link_target: None }) {
        Some(LsError::IOErrorContext(path, e, on_line)) => {
            assert_eq!((path.as_slice(), e, on_line), (&b"gone"[..], failure, true));
        }
        other => panic!("{other:?}"),
    }
    assert!(p.is_dangling_link());
    assert!(!p.is_executable_file());
}

#[test]
fn bad_descriptors_show_the_link_instead() {
    assert!(wants_link(true, BAD_DESCRIPTOR));
    assert!(!wants_link(false, BAD_DESCRIPTOR));
    let mut p = operand(b"l", &config(Dereference::Args), None);
    let reply =
        MetaReply::Failed { failure: BAD_DESCRIPTOR, link_target: Some(Some(meta(false, 0o100))) };
    assert!(p.metadata_reply(reply).is_none());
    assert!(p.is_executable_file());
    let mut p = operand(b"l", &config(Dereference::Args), None);
    assert!(p
        .metadata_reply(MetaReply::Failed { failure: BAD_DESCRIPTOR, link_target: None })
        .is_some());
}

#[test]
fn reported_files_are_entries() {
    let p = PathData::from_vf(b"d/f".to_vec(), b"f".to_vec(), attrs(), &config(Dereference::Never));
    assert_eq!(p.file_type(), Some(LsFileType::Dir));
    assert_eq!(p.metadata().unwrap().len(), 9);
    assert_eq!(p.metadata_request(), MetaRequest::Known);
    let p = PathData::from_vf(b"d/f".to_vec(), b"f".to_vec(), attrs(), &config(Dereference::All));
    assert!(p.must_dereference);
    assert_eq!(p.metadata_request(), MetaRequest::FromPath { dereference: true });
}

#[test]
fn any_execute_bit_makes_a_file_executable() {
    for (mode, expected) in [(0o100, true), (0o010, true), (0o001, true), (0o666, false), (0, false)] {
        assert_eq!(file_is_executable(&LsMeta::Std(meta(false, mode))), expected);
    }
}

#[test]
fn entries_as_data_keep_their_context() {
    let mut p =
        PathData::from_vf(b"d/f".to_vec(), b"f".to_vec(), attrs(), &config(Dereference::Never));
    let info = p.to_entry_info("label");
    assert_eq!((info.path.as_slice(), info.display_name.as_slice()), (&b"d/f"[..], &b"f"[..]));
    assert_eq!(info.file_type, Some(LsFileType::Dir));
    assert_eq!(info.metadata.unwrap().len(), 9);
    assert_eq!(info.security_context, "label");
    assert!(!info.command_line && !info.must_dereference);
    assert_eq!(p.security_context("other"), "label");
}

#[test]
fn security_contexts_are_text() {
    let c = config(Dereference::Never);
    let get = |reply| get_security_context(b"f", None, &c, reply);
    assert_eq!(get(ContextReply::Unsupported).text, "?");
    assert_eq!(get(ContextReply::Selinux(None)).text, "?");
    let failed = get(ContextReply::SelinuxFailed);
    assert_eq!((failed.text.as_str(), failed.warning), ("?", ContextWarning::NotRead));
    let ok = get(ContextReply::Selinux(Some(b"user_u:role\0".to_vec())));
    assert_eq!((ok.text.as_str(), ok.warning), ("user_u:role", ContextWarning::Nothing));
    let odd = get(ContextReply::Selinux(Some(b"a\xffb".to_vec())));
    assert_eq!((odd.text.as_str(), odd.warning), ("a\u{fffd}b", ContextWarning::NotText));
    assert_eq!(get(ContextReply::Smack(Some("_".to_string()))).text, "_");
    assert_eq!(get(ContextReply::Smack(None)).text, "?");
    assert!(get(ContextReply::Unsupported).error.is_none());
}

#[test]
fn links_that_lead_nowhere_have_no_context() {
    let failure = IoFailure { kind: ErrorKind::NotFound, raw_os_error: Some(2), backend: None };
    let asked = Config { context: true, ..config(Dereference::All) };
    let label = || ContextReply::Smack(Some("_".to_string()));
    let lost = get_security_context(b"l", Some(failure), &asked, label());
    assert_eq!((lost.text.as_str(), lost.warning), ("?", ContextWarning::Nothing));
    // It is minor trouble, and told where contexts are asked for.
    match lost.error {
        Some(e) => {
            assert_eq!(e.code(), 1);
            assert!(matches!(e, LsError::IOErrorContext(p, f, false) if p == b"l" && f == failure));
        }
        None => panic!("an error was expected"),
    }
    let quiet = Config { context: false, ..asked };
    let lost = get_security_context(b"l", Some(failure), &quiet, label());
    assert_eq!(lost.text, "?");
    assert!(lost.error.is_none());
    assert_eq!(context_source(true, true, true), ContextSource::Nowhere);
}

#[test]
fn contexts_are_looked_up_where_the_system_has_them() {
    assert_eq!(context_source(false, true, true), ContextSource::Selinux);
    assert_eq!(context_source(false, false, true), ContextSource::Smack);
    assert_eq!(context_source(false, false, false), ContextSource::Nowhere);
}

#[test]
fn only_one_nul_is_dropped_from_a_context() {
    assert_eq!(selinux_text(b"x\0\0").0, "x\0");
    assert_eq!(selinux_text(b"").0, "");
    assert_eq!(selinux_text("\u{e9}\0".as_bytes()).0, "\u{e9}");
}
