use ignition::bmp::{encode_bmp, encode_bmp_bottom_up};
use ignition::config::{ItemKind, LaunchItem};
use ignition::icon::{
    data_url, for_items, icon_dimensions, icon_query, FILE_ATTRIBUTE_DIRECTORY,
    FILE_ATTRIBUTE_NORMAL, SHGFI_ICON, SHGFI_USEFILEATTRIBUTES,
};

fn item(id: &str, target: &str, kind: ItemKind) -> LaunchItem {
    LaunchItem {
        id: id.into(),
        name: id.into(),
        target: target.into(),
        args: String::new(),
        kind,
        enabled: true,
        delay_ms: 0,
    }
}

/// A 32 by 32 icon bitmap, as the shell draws one for a program.
fn drawn_icon() -> Vec<u8> {
    let mut pixels = Vec::new();
    for i in 0..(32 * 32) {
        pixels.extend_from_slice(&[(i % 256) as u8, 0x40, 0x80, 0xff]);
    }
    encode_bmp(32, 32, &pixels)
}

#[test]
fn extracts_notepad_icon() {
    let item = LaunchItem {
        id: "n".into(),
        name: "Notepad".into(),
        target: r"C:\Windows\System32\notepad.exe".into(),
        args: String::new(),
        kind: ItemKind::App,
        enabled: true,
        delay_ms: 0,
    };
    let icons = for_items(&[item], &[Some(drawn_icon())]);
    let url = icons
        .iter()
        .find(|(id, _)| id == "n")
        .map(|(_, url)| url.clone())
        .expect("notepad icon");
    assert!(url.starts_with("data:image/bmp;base64,"), "{url}");
    assert!(url.len() > 200, "{}", url.len());
}

#[test]
fn base64_of_known_texts() {
    assert_eq!(ignition::base64::b64(b""), "");
    assert_eq!(ignition::base64::b64(b"hel"), "aGVs");
    assert_eq!(ignition::base64::b64(b"hell"), "aGVsbA==");
    assert_eq!(ignition::base64::b64(b"hello"), "aGVsbG8=");
    assert_eq!(ignition::base64::b64(&[0xfb, 0xff, 0xfe]), "+//+");
}

#[test]
fn base64_length_is_four_per_started_group() {
    for n in 0..20usize {
        let data: Vec<u8> = (0..n as u8).collect();
        assert_eq!(ignition::base64::b64(&data).len(), 4 * ((n + 2) / 3));
    }
}

#[test]
fn base64_of_concatenation() {
    let a = b"abcdef";
    let b = b"xy";
    let mut ab = a.to_vec();
    ab.extend_from_slice(b);
    assert_eq!(
        ignition::base64::b64(&ab),
        ignition::base64::b64(a) + &ignition::base64::b64(b)
    );
}

#[test]
fn data_url_of_bytes() {
    assert_eq!(data_url(&[0, 1, 2]), "data:image/bmp;base64,AAEC");
    assert_eq!(data_url(&[]), "data:image/bmp;base64,");
}

#[test]
fn top_down_bitmap_is_written_bottom_row_first() {
    let px = [1u8, 2, 3, 4, 5, 6, 7, 8];
    let bmp = encode_bmp(1, 2, &px);
    assert_eq!(bmp.len(), 54 + 8);
    assert_eq!(&bmp[0..2], b"BM");
    assert_eq!(&bmp[2..6], &[62, 0, 0, 0]);
    assert_eq!(&bmp[6..10], &[0, 0, 0, 0]);
    assert_eq!(&bmp[10..14], &[54, 0, 0, 0]);
    assert_eq!(&bmp[14..18], &[40, 0, 0, 0]);
    assert_eq!(&bmp[18..22], &[1, 0, 0, 0]);
    assert_eq!(&bmp[22..26], &[2, 0, 0, 0]);
    assert_eq!(&bmp[26..28], &[1, 0]);
    assert_eq!(&bmp[28..30], &[32, 0]);
    assert_eq!(&bmp[30..34], &[0, 0, 0, 0]);
    assert_eq!(&bmp[34..38], &[8, 0, 0, 0]);
    assert_eq!(&bmp[38..54], &[0u8; 16]);
    assert_eq!(&bmp[54..], &[5, 6, 7, 8, 1, 2, 3, 4]);
}

#[test]
fn bottom_up_bitmap_is_copied() {
    let px = [1u8, 2, 3, 4, 5, 6, 7, 8, 9];
    let bmp = encode_bmp_bottom_up(1, 2, &px);
    assert_eq!(bmp.len(), 62);
    assert_eq!(&bmp[54..], &[1, 2, 3, 4, 5, 6, 7, 8]);
    assert_eq!(&bmp[..54], &encode_bmp(1, 2, &px)[..54]);
}

#[test]
fn encoders_agree_on_flipped_rows() {
    let px: Vec<u8> = (0..24).collect();
    let flipped: Vec<u8> = px.chunks(8).rev().flatten().copied().collect();
    assert_eq!(encode_bmp(2, 3, &px), encode_bmp_bottom_up(2, 3, &flipped));
}

#[test]
fn large_sizes_are_written_modulo_two_to_the_32() {
    let px = vec![0u8; 256 * 256 * 4];
    let bmp = encode_bmp(256, 256, &px);
    let size = 54 + 256 * 256 * 4u32;
    assert_eq!(&bmp[2..6], &size.to_le_bytes());
    assert_eq!(&bmp[18..22], &256u32.to_le_bytes());
}

#[test]
fn icons_only_for_drawn_items() {
    let items = [item("a", "x", ItemKind::File), item("b", "y", ItemKind::File)];
    let got = for_items(&items, &[None, Some(vec![0, 1, 2])]);
    assert_eq!(got, vec![("b".to_string(), "data:image/bmp;base64,AAEC".to_string())]);
    assert!(for_items(&[], &[]).is_empty());
}

#[test]
fn shell_queries_by_kind() {
    let q = icon_query("https://x", ItemKind::Url, false, false);
    assert_eq!(q.path, "webpage.url");
    assert_eq!(q.attributes, FILE_ATTRIBUTE_NORMAL);
    assert_eq!(q.flags, SHGFI_ICON | SHGFI_USEFILEATTRIBUTES);

    let q = icon_query(r"C:\Games", ItemKind::Folder, true, true);
    assert_eq!((q.path.as_str(), q.attributes, q.flags), (r"C:\Games", 0, SHGFI_ICON));
    let q = icon_query(r"C:\Gone", ItemKind::Folder, false, false);
    assert_eq!(q.attributes, FILE_ATTRIBUTE_DIRECTORY);
    assert_eq!(q.flags, SHGFI_ICON | SHGFI_USEFILEATTRIBUTES);

    let q = icon_query(r"C:\a.exe", ItemKind::App, false, true);
    assert_eq!((q.attributes, q.flags), (0, SHGFI_ICON));
    let q = icon_query(r"C:\a.txt", ItemKind::File, false, false);
    assert_eq!((q.attributes, q.flags), (FILE_ATTRIBUTE_NORMAL, SHGFI_ICON | SHGFI_USEFILEATTRIBUTES));
}

#[test]
fn icon_sizes() {
    let s = icon_dimensions(32, -32).expect("top-down icon");
    assert_eq!((s.width, s.height, s.pixel_bytes), (32, 32, 4096));
    let s = icon_dimensions(256, 256).expect("largest icon");
    assert_eq!(s.pixel_bytes, 262144);
    assert!(icon_dimensions(0, 16).is_none());
    assert!(icon_dimensions(16, 0).is_none());
    assert!(icon_dimensions(257, 16).is_none());
    assert!(icon_dimensions(16, -257).is_none());
    assert!(icon_dimensions(-4, 16).is_none());
}

#[test]
fn base64_uses_only_its_alphabet() {
    let data: Vec<u8> = (0..=255u8).collect();
    let text = ignition::base64::b64(&data);
    assert!(text
        .chars()
        .all(|c| c.is_ascii_alphanumeric() || c == '+' || c == '/' || c == '='));
}

#[test]
fn one_icon_per_id_the_last_winning() {
    let items = [
        item("a", "x", ItemKind::File),
        item("b", "y", ItemKind::File),
        item("a", "z", ItemKind::File),
        item("b", "w", ItemKind::File),
    ];
    let got = for_items(&items, &[Some(vec![1]), Some(vec![2]), Some(vec![3]), None]);
    assert_eq!(
        got,
        vec![
            ("b".to_string(), data_url(&[2])),
            ("a".to_string(), data_url(&[3])),
        ]
    );
}

fn decode(text: &str) -> Vec<u8> {
    let value = |c: u8| -> u32 {
        match c {
            b'A'..=b'Z' => (c - b'A') as u32,
            b'a'..=b'z' => (c - b'a' + 26) as u32,
            b'0'..=b'9' => (c - b'0' + 52) as u32,
            b'+' => 62,
            _ => 63,
        }
    };
    let mut out = Vec::new();
    for g in text.as_bytes().chunks(4) {
        let n = (value(g[0]) << 18) | (value(g[1]) << 12) | (value(g[2]) << 6) | value(g[3]);
        out.push((n >> 16) as u8);
        if g[2] != b'=' {
            out.push((n >> 8) as u8);
        }
        if g[3] != b'=' {
            out.push(n as u8);
        }
    }
    out
}

#[test]
fn base64_decodes_back() {
    for n in 0..40usize {
        let data: Vec<u8> = (0..n).map(|i| (i * 37 + 11) as u8).collect();
        let text = ignition::base64::b64(&data);
        assert_eq!(decode(&text), data);
        let pad_start = text.find('=').unwrap_or(text.len());
        assert!(pad_start + 2 >= text.len());
    }
}
