use interleaver::interleaved;
use interleaver::upload::parse_append_mode;
use interleaver::upload::UploadParts;

fn strings(items: &[&str]) -> Vec<String> {
    let mut v = Vec::new();
    for item in items {
        v.push(String::from(*item));
    }
    v
}

#[test]
fn interleaved_pairs_buffers_line_by_line() {
    let commands = b"GET x\nSET y 2\nGET y".to_vec();
    let output = b"1\n2".to_vec();
    let merged = interleaved(&commands, &output, false);
    assert_eq!(merged, Ok(strings(&["GET x", "1", "SET y 2", "GET y", "2"])));
}

#[test]
fn interleaved_append_mode_concatenates_buffers() {
    let commands = b"GET x\nSET y 2".to_vec();
    let output = b"1\n2".to_vec();
    let merged = interleaved(&commands, &output, true);
    assert_eq!(merged, Ok(strings(&["GET x", "SET y 2", "1", "2"])));
}

#[test]
fn interleaved_empty_commands_yield_output() {
    let commands = Vec::new();
    let output = b"line\nline\n".to_vec();
    let merged = interleaved(&commands, &output, false);
    assert_eq!(merged, Ok(strings(&["line", "line"])));
}

#[test]
fn interleaved_fails_on_undecodable_commands() {
    let commands = vec![0xc3, 0x28];
    let output = b"1".to_vec();
    assert!(interleaved(&commands, &output, false).is_err());
}

#[test]
fn interleaved_fails_on_undecodable_output() {
    let commands = b"GET x".to_vec();
    let output = vec![b'1', b'\n', 0xf8];
    assert!(interleaved(&commands, &output, false).is_err());
}

#[test]
fn append_mode_flag_needs_the_exact_literal() {
    assert!(parse_append_mode(&b"true".to_vec()));
    assert!(!parse_append_mode(&b"TRUE".to_vec()));
    assert!(!parse_append_mode(&b"True".to_vec()));
    assert!(!parse_append_mode(&b"true ".to_vec()));
    assert!(!parse_append_mode(&b"truth".to_vec()));
    assert!(!parse_append_mode(&b"".to_vec()));
    assert!(!parse_append_mode(&b"false".to_vec()));
}

#[test]
fn store_part_routes_fields_by_name() {
    let mut parts = UploadParts::new();
    assert_eq!(parts.commands, Vec::<u8>::new());
    assert_eq!(parts.output, Vec::<u8>::new());
    assert!(!parts.append_mode);

    parts.store_part(&String::from("commands.txt"), b"GET x".to_vec());
    parts.store_part(&String::from("output.txt"), b"1".to_vec());
    assert_eq!(parts.commands, b"GET x".to_vec());
    assert_eq!(parts.output, b"1".to_vec());
    assert!(!parts.append_mode);
}

#[test]
fn store_part_ignores_unknown_names() {
    let mut parts = UploadParts::new();
    parts.store_part(&String::from("commands.txt"), b"GET x".to_vec());
    parts.store_part(&String::from("extra.bin"), b"junk".to_vec());
    assert_eq!(parts.commands, b"GET x".to_vec());
    assert_eq!(parts.output, Vec::<u8>::new());
    assert!(!parts.append_mode);
}

#[test]
fn append_mode_part_is_sticky_once_enabled() {
    let mut parts = UploadParts::new();
    parts.store_part(&String::from("append_mode"), b"nope".to_vec());
    assert!(!parts.append_mode);
    parts.store_part(&String::from("append_mode"), b"true".to_vec());
    assert!(parts.append_mode);
    parts.store_part(&String::from("append_mode"), b"false".to_vec());
    assert!(parts.append_mode);
}

#[test]
fn later_part_replaces_an_earlier_buffer() {
    let mut parts = UploadParts::new();
    parts.store_part(&String::from("commands.txt"), b"old".to_vec());
    parts.store_part(&String::from("commands.txt"), b"new".to_vec());
    assert_eq!(parts.commands, b"new".to_vec());
}

#[test]
fn whole_upload_round_trip() {
    let mut parts = UploadParts::new();
    parts.store_part(&String::from("commands.txt"), b"SET x 1\nGET x\n".to_vec());
    parts.store_part(&String::from("output.txt"), b"1\n".to_vec());
    parts.store_part(&String::from("append_mode"), b"maybe".to_vec());
    let merged = interleaved(&parts.commands, &parts.output, parts.append_mode);
    assert_eq!(merged, Ok(strings(&["SET x 1", "GET x", "1"])));
}
