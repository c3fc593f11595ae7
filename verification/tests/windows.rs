//! Volumes, elevation, the shell, the scan broker and the installer.

use diskloom::elevation::{
    is_process_elevated, join_windows_args, quote_windows_arg, shell_execute_outcome, wait_outcome,
    ElevationError,
};
use diskloom::installer::{
    append_path_value, default_install_dir, install_steps, machine_path_data, machine_path_text,
    machine_path_units, machine_path_written, may_remove_docs, path_value_contains,
    path_with_install_dir, start_menu_dir, trim_trailing_separators,
};
use diskloom::scan_broker::{
    elevated_scan_dir, elevated_scan_request_path, is_direct_child_of, register_elevated_scan_task,
    request_nonce, run_elevated_scan_task, schtasks_outcome, unregister_elevated_scan_task,
    validate_elevated_scan_output_paths, ElevatedScanRequest, ScanBrokerError,
    ELEVATED_SCAN_TASK_NAME,
};
use diskloom::shell::{
    double_null_terminated_path, explorer_argument, recycle_delete, show_properties,
    ShellActionError,
};
use diskloom::volume::{
    default_scan_path_from, default_startup_path, kind_from_name, normalize_drive_root,
    parse_drive_strings, trim_nul_utf16, volume_kind, volume_shortcut, VolumeInfo, VolumeKind,
    VolumeShortcut,
};

#[test]
fn quote_windows_arg_should_leave_plain_arguments_unquoted() {
    assert_eq!(quote_windows_arg("scan"), "scan");
}

#[test]
fn quote_windows_arg_should_quote_spaces() {
    assert_eq!(
        quote_windows_arg("C:\\Program Files"),
        "\"C:\\Program Files\""
    );
}

#[test]
fn quote_windows_arg_should_escape_quotes_and_trailing_backslashes() {
    assert_eq!(quote_windows_arg("a\"b\\"), "\"a\\\"b\\\\\"");
}

#[test]
fn join_windows_args_should_build_parameter_string() {
    let args = ["scan", "C:\\", "--name", "big file"];

    assert_eq!(
        join_windows_args(&args.iter().map(|arg| (*arg).to_owned()).collect()),
        "scan C:\\ --name \"big file\"".to_owned()
    );
}

#[test]
fn an_empty_argument_is_quoted() {
    assert_eq!(quote_windows_arg(""), "\"\"");
    assert_eq!(quote_windows_arg("a\\\\\"b"), "\"a\\\\\\\\\\\"b\"");
    assert_eq!(join_windows_args(&Vec::new()), "");
}

#[test]
fn the_system_says_whether_the_program_is_elevated() {
    assert_eq!(is_process_elevated(Some(0)), Ok(false));
    assert_eq!(is_process_elevated(Some(1)), Ok(true));
    assert_eq!(is_process_elevated(None), Err(ElevationError::UnsupportedPlatform));
    assert_eq!(shell_execute_outcome(33), Ok(()));
    assert_eq!(
        shell_execute_outcome(5),
        Err(ElevationError::ShellExecuteFailed(5))
    );
    assert_eq!(wait_outcome(0), Ok(()));
    assert_eq!(wait_outcome(258), Err(ElevationError::WaitFailed(258)));
    assert!(ElevationError::ShellExecuteFailed(5).describe().contains('5'));
    assert!(ElevationError::WaitFailed(258).describe().contains("258"));
    assert!(!ElevationError::UnsupportedPlatform.describe().is_empty());
}

#[test]
fn direct_child_check_should_accept_file_in_parent() {
    assert!(is_direct_child_of(
        r"C:\Users\a\AppData\Local\DiskLoom\Broker\out.dlsnap",
        r"c:\users\a\appdata\local\diskloom\broker\"
    ));
}

#[test]
fn direct_child_check_should_reject_nested_file() {
    assert!(!is_direct_child_of(
        r"C:\Users\a\AppData\Local\DiskLoom\Broker\nested\out.dlsnap",
        r"C:\Users\a\AppData\Local\DiskLoom\Broker"
    ));
}

#[test]
fn own_requests_pass_and_others_do_not() {
    let dir = elevated_scan_dir(r"C:\Users\a\AppData\Local");
    let request = ElevatedScanRequest::new("C:\\", &dir, &request_nonce(7, 99));
    assert_eq!(request.nonce, "7-99");
    assert_eq!(validate_elevated_scan_output_paths(&request, &dir), Ok(()));
    assert!(elevated_scan_request_path(&dir).starts_with(&dir));

    let mut outside = request.clone();
    outside.snapshot_path = r"C:\Windows\out.dlsnap".to_owned();
    assert_eq!(
        validate_elevated_scan_output_paths(&outside, &dir),
        Err(ScanBrokerError::InvalidOutputPath)
    );
    let mut outside = request;
    outside.error_path = dir.clone();
    assert_eq!(
        validate_elevated_scan_output_paths(&outside, &dir),
        Err(ScanBrokerError::InvalidOutputPath)
    );
    assert!(!ScanBrokerError::InvalidOutputPath.describe().is_empty());
}

#[test]
fn the_task_is_named_in_every_command() {
    for args in [
        register_elevated_scan_task(r"C:\Program Files\DiskLoom\dlm.exe"),
        unregister_elevated_scan_task(),
        run_elevated_scan_task(),
    ] {
        assert!(args.iter().any(|arg| arg == ELEVATED_SCAN_TASK_NAME));
    }
    assert_eq!(schtasks_outcome(Some(true), "done", ""), Ok(()));
    assert_eq!(
        schtasks_outcome(Some(false), "", "denied"),
        Err(ScanBrokerError::CommandFailed("denied".to_owned()))
    );
    assert_eq!(
        schtasks_outcome(None, "", ""),
        Err(ScanBrokerError::UnsupportedPlatform)
    );
}

#[test]
fn shell_actions_report_their_codes() {
    assert_eq!(recycle_delete(Some(0)), Ok(()));
    assert_eq!(
        recycle_delete(Some(2)),
        Err(ShellActionError::FileOperationFailed(2))
    );
    assert_eq!(recycle_delete(None), Err(ShellActionError::UnsupportedPlatform));
    assert_eq!(show_properties(Some(Ok(()))), Ok(()));
    assert_eq!(
        show_properties(Some(Err(5))),
        Err(ShellActionError::ShellExecuteFailed(5))
    );
    assert_eq!(show_properties(None), Err(ShellActionError::UnsupportedPlatform));
    assert!(ShellActionError::FileOperationFailed(2).describe().contains('2'));
    assert!(explorer_argument("C:\\a.txt", false).contains("C:\\a.txt"));
    assert_ne!(explorer_argument("C:\\a", true), explorer_argument("C:\\a", false));
    assert_eq!(double_null_terminated_path("ab"), vec![97, 98, 0, 0]);
    assert_eq!(double_null_terminated_path("😀"), vec![0xd83d, 0xde00, 0, 0]);
}

#[test]
fn parse_drive_strings_should_read_multi_string_buffer() {
    let input: Vec<u16> = "C:\\\0D:\\\0\0".encode_utf16().collect();

    let roots = parse_drive_strings(&input);

    assert_eq!(roots, ["C:\\", "D:\\"]);
}

#[test]
fn trim_nul_utf16_should_stop_at_first_nul() {
    let input: Vec<u16> = "NTFS\0ignored".encode_utf16().collect();

    assert_eq!(trim_nul_utf16(&input), "NTFS");
}

#[test]
fn units_that_stand_for_nothing_are_replaced() {
    let input = [0x41, 0xd800, 0x42, 0xdc00, 0xd83d, 0xde00, 0xd800];

    assert_eq!(trim_nul_utf16(&input), String::from_utf16_lossy(&input));
    assert_eq!(trim_nul_utf16(&input), "A\u{fffd}B\u{fffd}😀\u{fffd}");
}

#[test]
fn volumes_are_offered_by_drive_and_format() {
    let units: Vec<u16> = "ntfs\0".encode_utf16().collect();
    assert_eq!(volume_kind(Some(&units)), VolumeKind::Ntfs);
    assert_eq!(volume_kind(None), VolumeKind::Unknown);
    assert_eq!(
        kind_from_name("exFAT".to_owned()),
        VolumeKind::Other("exFAT".to_owned())
    );
    let shortcut = |kind| {
        volume_shortcut(VolumeInfo {
            root: "E:\\".to_owned(),
            kind,
            total_bytes: Some(2),
            free_bytes: Some(1),
        })
    };
    assert_eq!(shortcut(VolumeKind::Ntfs).label, "E: NTFS");
    assert!(shortcut(VolumeKind::Ntfs).is_ntfs);
    assert_eq!(shortcut(VolumeKind::Other("exFAT".to_owned())).label, "E: exFAT");
    assert_eq!(shortcut(VolumeKind::Other(String::new())).label, "E:");
    assert_eq!(shortcut(VolumeKind::Unknown).label, "E:");
}

fn volume(root: &str, is_ntfs: bool) -> VolumeShortcut {
    VolumeShortcut {
        root: root.to_owned(),
        label: root.to_owned(),
        is_ntfs,
        total_bytes: None,
        free_bytes: None,
    }
}

#[test]
fn native_normalize_drive_root_should_accept_drive_roots() {
    assert_eq!(normalize_drive_root("c:").as_deref(), Some("C:\\"));
    assert_eq!(normalize_drive_root("d:\\").as_deref(), Some("D:\\"));
    assert_eq!(normalize_drive_root("e:/").as_deref(), Some("E:\\"));
    assert_eq!(normalize_drive_root("c:\\Users"), None);
}

#[test]
fn slint_app_normalize_drive_root_should_accept_drive_roots() {
    assert_eq!(normalize_drive_root("c:").as_deref(), Some("C:\\"));
    assert_eq!(normalize_drive_root("d:\\").as_deref(), Some("D:\\"));
    assert_eq!(normalize_drive_root("e:/").as_deref(), Some("E:\\"));
    assert_eq!(normalize_drive_root("c:\\Users"), None);
}

#[test]
fn native_default_scan_path_should_prefer_system_drive() {
    let volumes = vec![
        volume("D:\\", false),
        volume("C:\\", true),
        volume("E:\\", true),
    ];

    assert_eq!(default_scan_path_from(Some("c:"), &volumes), "C:\\");
}

#[test]
fn slint_app_default_scan_path_should_prefer_system_drive() {
    let volumes = vec![
        volume("D:\\", false),
        volume("C:\\", true),
        volume("E:\\", true),
    ];

    assert_eq!(default_scan_path_from(Some("c:"), &volumes), "C:\\");
}

#[test]
fn without_a_system_drive_a_volume_is_taken() {
    let volumes = vec![volume("D:\\", false), volume("E:\\", true)];

    assert_eq!(default_scan_path_from(None, &volumes), "E:\\");
    assert_eq!(default_scan_path_from(Some("x"), &volumes[..1].iter().map(|v| volume(&v.root, v.is_ntfs)).collect()), "D:\\");
    assert_eq!(default_scan_path_from(Some("z:"), &volumes), "Z:\\");
    assert_eq!(default_scan_path_from(None, &Vec::new()), ".");
    assert_eq!(default_startup_path(Some(" c:\\ "), &volumes).as_deref(), Some("c:\\"));
    assert_eq!(default_startup_path(None, &volumes).as_deref(), Some("E:\\"));
    assert_eq!(default_startup_path(None, &Vec::new()), None);
}

#[test]
fn trim_trailing_separators_should_keep_drive_root_name() {
    assert_eq!(
        trim_trailing_separators(r"C:\Program Files\DiskLoom\"),
        r"C:\Program Files\DiskLoom"
    );
}

#[test]
fn path_value_contains_should_match_case_insensitive_paths() {
    assert!(path_value_contains(
        r"C:\Windows;C:\Program Files\DiskLoom",
        r"c:\program files\diskloom\"
    ));
}

#[test]
fn path_value_contains_should_not_match_partial_paths() {
    assert!(!path_value_contains(
        r"C:\Program Files\DiskLoomer",
        r"C:\Program Files\DiskLoom"
    ));
}

#[test]
fn append_path_value_should_preserve_existing_entries() {
    assert_eq!(
        append_path_value(r"C:\Windows;", r"C:\Program Files\DiskLoom"),
        r"C:\Windows;C:\Program Files\DiskLoom"
    );
}

#[test]
fn a_search_path_holds_what_was_appended() {
    for value in ["", ";", "C:\\Windows", "C:\\a;;C:\\b;"] {
        let updated = path_with_install_dir(value, "D:\\Tools\\").unwrap();
        assert!(path_value_contains(&updated, "d:\\tools"));
        assert_eq!(path_with_install_dir(&updated, "D:\\tools"), None);
    }
}

#[test]
fn the_search_path_is_read_and_written() {
    assert_eq!(machine_path_units(2, 7), Ok(None));
    assert_eq!(machine_path_units(0, 0), Ok(None));
    assert_eq!(machine_path_units(0, 7), Ok(Some(4)));
    assert_eq!(
        machine_path_units(5, 7).unwrap_err(),
        "failed to read machine PATH size: Windows error 5"
    );
    assert_eq!(
        machine_path_text(6, &[]).unwrap_err(),
        "failed to read machine PATH: Windows error 6"
    );
    let (units, bytes) = machine_path_data("C:\\Größe").unwrap();
    assert_eq!(bytes as usize, units.len() * 2);
    assert_eq!(machine_path_text(0, &units).unwrap(), "C:\\Größe");
    assert_eq!(machine_path_written(0), Ok(()));
    assert_eq!(
        machine_path_written(5).unwrap_err(),
        "failed to write machine PATH: Windows error 5"
    );
}

#[test]
fn the_installation_copies_its_files() {
    assert_eq!(default_install_dir(None), r"C:\Program Files\DiskLoom");
    assert_eq!(default_install_dir(Some(r"D:\Apps")), r"D:\Apps\DiskLoom");
    assert_eq!(
        start_menu_dir(None),
        r"C:\ProgramData\Microsoft\Windows\Start Menu\Programs"
    );
    let steps = install_steps(r"C:\src", r"D:\Apps");
    assert_eq!(steps.len(), 5);
    assert_eq!(steps[0].source, r"C:\src\diskloom.exe");
    assert_eq!(steps[0].destination, r"D:\Apps\diskloom.exe");
    assert!(steps[1].required);
    assert!(!steps[2].required);
    assert!(may_remove_docs(r"D:\Apps\docs", r"D:\Apps"));
    assert!(!may_remove_docs(r"D:\Apps2\docs", r"D:\Apps"));
}
