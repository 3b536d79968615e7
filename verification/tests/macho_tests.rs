use iris_parsers::macho::{cstr_at, extract_info, is_fat_magic, LoadCommand};

#[test]
fn cstr_at_reads_terminated_string() {
    let bytes = b"ab\0cd";
    assert_eq!(cstr_at(bytes, 0), Some(b"ab".to_vec()));
    assert_eq!(cstr_at(bytes, 1), Some(b"b".to_vec()));
    assert_eq!(cstr_at(bytes, 2), Some(b"".to_vec()));
}

#[test]
fn cstr_at_requires_terminator_in_bounds() {
    let bytes = b"ab\0cd";
    assert_eq!(cstr_at(bytes, 3), None);
    assert_eq!(cstr_at(bytes, 5), None);
    assert_eq!(cstr_at(b"", 0), None);
}

#[test]
fn cstr_at_rejects_invalid_utf8() {
    assert_eq!(cstr_at(&[0xff, 0xfe, 0x00], 0), None);
}

#[test]
fn extract_collects_by_command_kind() {
    let bytes = b"libfoo.dylib\0libweak.dylib\0@rpath/lib\0";
    let cmds = vec![
        LoadCommand::Load { offset: 0, name_off: 0 },
        LoadCommand::Weak { offset: 13, name_off: 0 },
        LoadCommand::Rpath { offset: 13, path_off: 14 },
        LoadCommand::Other,
    ];
    let info = extract_info(bytes, &cmds, 2);
    assert_eq!(info.load_dylibs, vec![b"libfoo.dylib".to_vec()]);
    assert_eq!(info.weak_dylibs, vec![b"libweak.dylib".to_vec()]);
    assert_eq!(info.rpaths, vec![b"@rpath/lib".to_vec()]);
    assert_eq!(info.reexport_dylibs.len(), 0);
    assert_eq!(info.file_type, 2);
}

#[test]
fn extract_skips_out_of_range_names() {
    let bytes = b"lib\0";
    let cmds = vec![
        LoadCommand::Load { offset: 100, name_off: 0 },
        LoadCommand::Reexport { offset: 0, name_off: 0 },
    ];
    let info = extract_info(bytes, &cmds, 0);
    assert_eq!(info.load_dylibs.len(), 0);
    assert_eq!(info.reexport_dylibs, vec![b"lib".to_vec()]);
}

#[test]
fn fat_magic_detection() {
    assert!(is_fat_magic(&[0xca, 0xfe, 0xba, 0xbe]));
    assert!(is_fat_magic(&[0xbe, 0xba, 0xfe, 0xca, 1, 2]));
    assert!(!is_fat_magic(&[0xfe, 0xed, 0xfa, 0xcf]));
    assert!(!is_fat_magic(&[0xca, 0xfe]));
}
