use mhf_runtime::export::{
    append_chunk, file_length, numbered_filename, read_step, resource_extension, safe_filename,
    Document, Export, Node, ResourceKind,
};

fn node(name: &str, kind: ResourceKind, buffer: usize, start: usize, end: usize) -> Node {
    Node { name: name.to_string(), kind, buffer, start, end, error: None }
}

fn export_document() -> Document {
    Document {
        root: 0,
        buffers: vec![vec![1, 2, 3, 4], vec![5, 6, 7, 8, 9, 10]],
        nodes: vec![
            node("Z:\\游戏\\dat\\em001.hd.pac", ResourceKind::Ecd, 0, 0, 4),
            node("解码结果.old", ResourceKind::Fmod, 1, 0, 6),
            node("图像.old", ResourceKind::Png, 1, 1, 5),
            node("image.png", ResourceKind::Block, 1, 2, 4),
            node("motion.mot", ResourceKind::Track, 1, 1, 3),
            node("data.dds", ResourceKind::Unknown, 1, 0, 6),
        ],
    }
}

/// Reads `source` in chunks of at most `chunk` bytes, as a file reader does.
fn read_all(source: &[u8], length: u64, chunk: usize) -> Result<Vec<u8>, String> {
    file_length(length)?;
    let mut bytes = Vec::new();
    let mut offset = 0;
    loop {
        let end = (offset + chunk).min(source.len());
        if read_step(&mut bytes, &source[offset..end])? {
            return Ok(bytes);
        }
        offset = end;
    }
}

#[test]
fn export_names_distinguish_original_files_resources_and_fragments() {
    let document = export_document();
    assert_eq!(Export::from_node(&document, 0).unwrap().name, "em001.hd.pac");
    assert_eq!(Export::from_node(&document, 1).unwrap().name, "解码结果.fmod");
    assert_eq!(Export::from_node(&document, 2).unwrap().name, "图像.png");
    for (index, start, end) in [(3, 2, 4), (4, 1, 3), (5, 0, 6)] {
        let export = Export::from_node(&document, index).unwrap();
        assert!(export.name.ends_with(&format!("-b1-0x{:08X}.bin", start)));
        assert_eq!(&export.bytes[export.start..export.end], &document.buffers[1][start..end]);
    }
    let mut invalid = document;
    invalid.nodes[2].error = Some("truncated resource".into());
    assert!(Export::from_node(&invalid, 2).unwrap().name.ends_with(".bin"));
    invalid.nodes[2].start = 0;
    invalid.nodes[2].end = 99;
    assert!(Export::from_node(&invalid, 2).is_err());
}

#[test]
fn export_filenames_keep_unicode_and_extensions_with_safe_collision_names() {
    assert_eq!(safe_filename("Z:\\游戏\\怪物 001.hd.dds"), "怪物 001.hd.dds");
    assert_eq!(safe_filename("../../raw:node?.bin"), "raw_node_.bin");
    for name in ["CON", "NUL.dds", "com1.png", "LPT².bin", "CONOUT$"] {
        assert!(safe_filename(name).starts_with('_'));
    }
    assert_eq!(safe_filename(".."), "resource");
    assert_eq!(numbered_filename("怪物 001.hd.dds", 0), "怪物 001.hd.dds");
    assert_eq!(numbered_filename("怪物 001.hd.dds", 1), "怪物 001.hd-001.dds");
    let long = format!("{}.dds", "😀".repeat(150));
    for index in [999, 1000, usize::MAX] {
        let bounded = numbered_filename(&long, index);
        assert!(bounded.encode_utf16().count() <= 255);
        assert!(bounded.ends_with(&format!("-{index:03}.dds")));
    }
}

#[test]
fn resource_lengths_follow_address_space_instead_of_a_fixed_file_limit() {
    let length = 256 * 1024 * 1024 + 1;
    assert_eq!(file_length(length).unwrap(), length as usize);
    assert_eq!(file_length(isize::MAX as u64).unwrap(), isize::MAX as usize);
    assert!(file_length(isize::MAX as u64 + 1).is_err());
    assert!(file_length(u64::MAX).is_err());
}

#[test]
fn resource_reads_use_actual_bytes_when_metadata_length_changes() {
    let source: Vec<_> = (0..131_079).map(|index| index as u8).collect();
    for length in [0, 17, source.len() as u64, source.len() as u64 + 100] {
        assert_eq!(read_all(&source, length, 64 * 1024).unwrap(), source);
    }
}

#[test]
fn resource_kinds_keep_their_standalone_extensions() {
    assert_eq!(resource_extension(ResourceKind::Fmod), Some("fmod"));
    assert_eq!(resource_extension(ResourceKind::MotionArchive), Some("mot"));
    assert_eq!(resource_extension(ResourceKind::Block), None);
    assert_eq!(resource_extension(ResourceKind::Unknown), None);
}

#[test]
fn reading_stops_at_the_first_empty_chunk_and_keeps_bytes_in_order() {
    let mut bytes = vec![1, 2];
    assert_eq!(read_step(&mut bytes, &[3, 4]), Ok(false));
    assert_eq!(read_step(&mut bytes, &[]), Ok(true));
    assert_eq!(bytes, [1, 2, 3, 4]);
    let mut more = Vec::new();
    assert!(append_chunk(&mut more, &[9]).is_ok());
    assert_eq!(more, [9]);
}

#[test]
fn numbered_names_beyond_the_first_keep_their_index_visible() {
    assert_eq!(numbered_filename("a.bin", 12), "a-012.bin");
    assert_eq!(numbered_filename("noext", 2), "noext-002");
    assert_eq!(safe_filename("dir/sub/file.txt"), "file.txt");
}

#[test]
fn a_range_outside_its_buffer_is_refused() {
    let mut document = export_document();
    document.nodes[3].end = 7;
    assert!(Export::from_node(&document, 3).is_err());
    assert!(Export::from_node(&document, 9).is_err());
}

#[test]
fn sanitized_names_are_final() {
    for name in ["dir/CON.txt", "a<b>c:d|e?.", "com1 . ", "..", "", "lpt¹.dat", "ok.bin"] {
        let once = safe_filename(name);
        assert!(!once.is_empty());
        assert!(!once.ends_with('.') && !once.ends_with(' '));
        assert!(!once.chars().any(|c| "/\\<>:\"|?*".contains(c) || c.is_control()));
        assert_eq!(safe_filename(&once), once);
    }
    assert_eq!(safe_filename("dir/CON.txt"), "_CON.txt");
}
