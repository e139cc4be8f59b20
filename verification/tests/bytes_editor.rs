use mhf_runtime::bytes_editor::{ascii_cell, fingerprint, hint, parse_cell, row_span, ByteEditor};

#[test]
fn complete_cells_write_bytes_and_incomplete_ones_stay_drafts() {
    let mut editor = ByteEditor::new();
    assert!(editor.stale(7));
    editor.reload(7, vec![0x00, 0x41, 0xff]);
    assert!(!editor.stale(7));
    assert_eq!(editor.serialize(), "00 41 FF");
    assert!(editor.edit_cell(0, "7f".to_string()));
    assert_eq!(editor.values(), &vec![0x7f, 0x41, 0xff]);
    assert!(!editor.edit_cell(1, "4".to_string()));
    assert_eq!(editor.draft(1), Some("4".to_string()));
    assert_eq!(editor.values()[1], 0x41);
    assert_eq!(editor.drafts_left(), 1);
    assert_eq!(editor.serialize(), "7F ?4 FF");
    assert!(editor.cancel_cell(1));
    assert!(!editor.cancel_cell(1));
    assert_eq!(editor.serialize(), "7F 41 FF");
    assert!(!editor.edit_cell(2, "zz".to_string()));
    assert!(!editor.paste_bytes(Err("长度不符".to_string())));
    assert_eq!(editor.error(), "长度不符");
    assert_eq!(editor.drafts_left(), 1);
    assert!(editor.paste_bytes(Ok(vec![1, 2])));
    assert_eq!(editor.error(), "");
    assert_eq!(editor.drafts_left(), 0);
    let text = editor.publish();
    assert_eq!(text, "01 02");
}

#[test]
fn cells_parse_exactly_two_hex_digits() {
    assert_eq!(parse_cell("a0"), Some(0xa0));
    assert_eq!(parse_cell("0F"), Some(0x0f));
    assert_eq!(parse_cell("F"), None);
    assert_eq!(parse_cell("0x1"), None);
    assert_eq!(parse_cell("g1"), None);
    assert_eq!(ascii_cell(b'A'), 'A');
    assert_eq!(ascii_cell(0x7f), '.');
    assert_eq!(ascii_cell(0x1f), '.');
    assert_eq!(hint(0), "完整字节实时更新；Tab 切换，Esc 关闭。");
    assert_eq!(hint(2), "2 个未完成输入阻止预览与打包；Esc 取消当前格。");
    assert_eq!(row_span(1, 16, 20), (0, 16));
    assert_eq!(row_span(2, 16, 20), (16, 20));
}

#[test]
fn the_editor_recognises_its_own_write() {
    let mut editor = ByteEditor::new();
    editor.reload(1, vec![0x12, 0xAB]);
    assert!(editor.edit_cell(0, "ff".to_string()));
    let text = editor.publish();
    assert!(!editor.stale(fingerprint(&text)));
    assert!(editor.stale(fingerprint("00 00")));
    assert_ne!(fingerprint("ff ab"), fingerprint("ff ac"));
    assert_eq!(fingerprint("ff ab"), fingerprint("ff ab"));
}
