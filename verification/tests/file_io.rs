use lizard::file_io::{swap_extension, FileInputOutput};

#[test]
fn test_encoding() {
    let encoding_io = FileInputOutput::new_from_unencoded("file.txt", None, true);
    assert_eq!(encoding_io.unencoded_filename, String::from("file.txt"));
    assert_eq!(
        encoding_io.debug_encoded_filename,
        Some(String::from("file.dblzd"))
    );
    assert_eq!(encoding_io.encoded_filename, String::from("file.lizard"));

    let encoding_io =
        FileInputOutput::new_from_unencoded("file.txt", Some("custom_output.foo"), false);
    assert_eq!(encoding_io.unencoded_filename, String::from("file.txt"));
    assert_eq!(encoding_io.debug_encoded_filename, None);
    assert_eq!(
        encoding_io.encoded_filename,
        String::from("custom_output.foo")
    );
}

#[test]
fn test_decoding() {
    let decoding_io = FileInputOutput::new_from_encoded("file.lizard", None);
    assert_eq!(decoding_io.encoded_filename, String::from("file.lizard"));
    assert_eq!(decoding_io.debug_encoded_filename, None);
    assert_eq!(decoding_io.unencoded_filename, String::from("file.txt"));

    let decoding_io = FileInputOutput::new_from_encoded("file.lizard", Some("my_unencoded_file.log"));
    assert_eq!(decoding_io.encoded_filename, String::from("file.lizard"));
    assert_eq!(decoding_io.debug_encoded_filename, None);
    assert_eq!(
        decoding_io.unencoded_filename,
        String::from("my_unencoded_file.log")
    );
}

#[test]
fn extension_swap_edges() {
    // a dot in a directory name does not count as an extension
    assert_eq!(swap_extension("dir.d/file", "lizard"), "dir.d/file.lizard");
    // a leading dot hides a file rather than marking an extension
    assert_eq!(swap_extension(".bashrc", "lizard"), ".bashrc.lizard");
    // only the last dot of the last component is replaced
    assert_eq!(swap_extension("a/b.c.d", "txt"), "a/b.c.txt");
}

#[test]
fn validity_checks() {
    let io = FileInputOutput::new_from_unencoded("file.txt", None, false);
    assert!(io.input_is_valid(true, true).is_ok());
    let err = io.input_is_valid(true, false).unwrap_err();
    assert_eq!(err, "Input file does not exist: file.txt");
    assert!(io.output_is_valid(true, false, false).is_ok());
    assert!(io.output_is_valid(true, true, true).is_ok());
    assert_eq!(
        io.output_is_valid(true, true, false),
        Err("Output file exists. Consider passing overwrite to ignore this")
    );
}
