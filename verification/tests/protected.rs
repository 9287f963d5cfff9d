use mathom::protected::{block_reason, strip_verbatim_disk_prefix};

const SYSROOT: Option<&str> = Some("C:\\Windows");

#[test]
fn blocks_recycle_bin_at_any_volume_root() {
    assert!(block_reason("C:\\$Recycle.Bin", SYSROOT).is_some());
    assert!(block_reason("d:/$RECYCLE.BIN", SYSROOT).is_some());
    assert!(block_reason("E:\\$Recycle.Bin\\", SYSROOT).is_some());
}

#[test]
fn blocks_system_volume_information_and_paging_files() {
    assert!(block_reason("C:\\System Volume Information", SYSROOT).is_some());
    assert!(block_reason("C:\\pagefile.sys", SYSROOT).is_some());
    assert!(block_reason("C:\\hiberfil.sys", SYSROOT).is_some());
    assert!(block_reason("D:\\swapfile.sys", SYSROOT).is_some());
}

#[test]
fn blocks_the_windows_directory_itself() {
    assert!(block_reason("C:\\Windows", SYSROOT).is_some());
    assert!(block_reason("c:\\WINDOWS\\", SYSROOT).is_some());
    // Same name on another drive is just a folder.
    assert!(block_reason("D:\\Windows", SYSROOT).is_none());
}

#[test]
fn blocks_critical_windows_dirs_and_their_contents() {
    assert!(block_reason("C:\\Windows\\System32", SYSROOT).is_some());
    assert!(block_reason("c:\\windows\\system32\\drivers", SYSROOT).is_some());
    assert!(block_reason("C:\\Windows\\SysWOW64", SYSROOT).is_some());
    assert!(block_reason("C:\\Windows\\WinSxS\\amd64_microsoft-windows", SYSROOT).is_some());
    assert!(block_reason("C:\\Windows\\Boot\\", SYSROOT).is_some());
    assert!(block_reason("C:\\Windows\\Fonts\\arial.ttf", SYSROOT).is_some());
}

#[test]
fn temp_class_paths_inside_windows_stay_deletable() {
    assert!(block_reason("C:\\Windows\\Temp", SYSROOT).is_none());
    assert!(block_reason("C:\\Windows\\Temp\\junk.tmp", SYSROOT).is_none());
    assert!(block_reason("C:\\Windows\\SoftwareDistribution\\Download", SYSROOT).is_none());
    assert!(block_reason("C:\\Windows\\Logs", SYSROOT).is_none());
}

#[test]
fn critical_dir_lookalikes_elsewhere_stay_deletable() {
    assert!(block_reason("D:\\Windows\\System32", SYSROOT).is_none());
    assert!(block_reason("C:\\backup\\Windows\\System32", SYSROOT).is_none());
    assert!(block_reason("C:\\System32", SYSROOT).is_none());
    // "C:\Windows2" shares a prefix with the system root but isn't it.
    assert!(block_reason("C:\\Windows2\\System32", SYSROOT).is_none());
}

#[test]
fn allows_recycle_bin_contents_and_lookalikes() {
    // Deleting orphaned per-user recycle data is the point of finding it.
    assert!(block_reason("C:\\$Recycle.Bin\\S-1-5-21-303019", SYSROOT).is_none());
    // Only the real one at a volume root is special.
    assert!(block_reason("C:\\backup\\$Recycle.Bin", SYSROOT).is_none());
}

#[test]
fn allows_ordinary_paths() {
    assert!(block_reason("C:\\Users\\me\\big.iso", SYSROOT).is_none());
    assert!(block_reason("C:\\ProgramData", SYSROOT).is_none());
    assert!(block_reason("relative\\pagefile.sys", SYSROOT).is_none());
}

#[test]
fn volume_root_rules_hold_without_a_system_root() {
    assert!(block_reason("C:\\$Recycle.Bin", None).is_some());
    assert!(block_reason("C:\\Windows", None).is_none());
}

#[test]
fn strips_only_verbatim_disk_prefixes() {
    assert_eq!(
        strip_verbatim_disk_prefix(r"\\?\C:\$Recycle.Bin"),
        r"C:\$Recycle.Bin"
    );
    assert_eq!(
        strip_verbatim_disk_prefix(r"\\?\UNC\server\share"),
        r"\\?\UNC\server\share"
    );
}
