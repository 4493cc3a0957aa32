use scriptbox::loader::{after_write, dataless_message, fd_path, is_dataless, temp_copy_name};

#[test]
fn descriptors_have_paths() {
    assert_eq!(fd_path(true, 3), "/proc/self/fd/3");
    assert_eq!(fd_path(false, 120), "/dev/fd/120");
    assert_eq!(temp_copy_name(10, 0), ".scriptbox.10.0");
}

#[test]
fn writing_goes_on_until_all_is_written() {
    assert_eq!(after_write(5, 0, 2), Some(2));
    assert_eq!(after_write(5, 2, 3), Some(5));
    assert_eq!(after_write(5, 2, 0), None);
    assert_eq!(after_write(5, 2, 4), None);
}

#[test]
fn placeholders_are_refused() {
    assert!(is_dataless(0x4000_0001));
    assert!(!is_dataless(0xbfff_ffff));
    assert_eq!(
        dataless_message("/x"),
        "`/x` is a dataless (online-only) file; refusing to trigger a cloud download. \
         Materialize it first (open/download it), then re-run."
    );
}
