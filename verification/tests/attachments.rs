//! Attached files: what they are, what is read out of them, and where their
//! copies go.

use std::io::Write;
use std::path::Path;

use intentionality::attach::{
    cap_chars, check_copied, check_image, check_pdf, classify_and_extract, classify_with, display_name,
    hex_name, human, image_media_type, meeting_dir, opaque_name, plan, plan_as, root, stage, sweep_orphans, FileType, Kind,
    SweepEntry, SweepStep, MAX_EXTRACTED_CHARS_PER_FILE, MAX_FILE_BYTES, MAX_TOTAL_FILE_BYTES,
};
use intentionality::ooxml::{
    is_prose_part, numeric_suffix, part_rank, strip_part, text, wanted_parts, MAX_ZIP_ENTRY_BYTES,
};
use intentionality::paths::{file_name, join, parent};

fn zip_of(parts: &[(&str, &str)]) -> Vec<u8> {
    let mut buf = std::io::Cursor::new(Vec::new());
    {
        let mut w = zip::ZipWriter::new(&mut buf);
        let opts = zip::write::SimpleFileOptions::default();
        for (name, body) in parts {
            w.start_file(*name, opts).unwrap();
            w.write_all(body.as_bytes()).unwrap();
        }
        w.finish().unwrap();
    }
    buf.into_inner()
}

fn document_of(pages: usize) -> lopdf::Document {
    let mut doc = lopdf::Document::with_version("1.5");
    let tree = doc.new_object_id();
    let mut kids: Vec<lopdf::Object> = Vec::new();
    for _ in 0..pages {
        let mut page = lopdf::Dictionary::new();
        page.set("Type", lopdf::Object::Name(b"Page".to_vec()));
        page.set("Parent", lopdf::Object::Reference(tree));
        kids.push(lopdf::Object::Reference(doc.add_object(page)));
    }
    let mut list = lopdf::Dictionary::new();
    list.set("Type", lopdf::Object::Name(b"Pages".to_vec()));
    list.set("Kids", lopdf::Object::Array(kids));
    list.set("Count", lopdf::Object::Integer(pages as i64));
    doc.objects.insert(tree, lopdf::Object::Dictionary(list));
    let mut catalog = lopdf::Dictionary::new();
    catalog.set("Type", lopdf::Object::Name(b"Catalog".to_vec()));
    catalog.set("Pages", lopdf::Object::Reference(tree));
    let root = doc.add_object(catalog);
    doc.trailer.set("Root", lopdf::Object::Reference(root));
    doc
}

fn pdf_of(pages: usize) -> Vec<u8> {
    let mut out: Vec<u8> = Vec::new();
    document_of(pages).save_to(&mut out).unwrap();
    out
}

fn locked_pdf_of(pages: usize, password: &str) -> Vec<u8> {
    let mut doc = document_of(pages);
    let id = lopdf::Object::String(vec![7; 16], lopdf::StringFormat::Hexadecimal);
    doc.trailer.set("ID", lopdf::Object::Array(vec![id.clone(), id]));
    let state = lopdf::EncryptionState::try_from(lopdf::EncryptionVersion::V2 {
        document: &doc,
        owner_password: "owner",
        user_password: password,
        key_length: 128,
        permissions: lopdf::Permissions::all(),
    })
    .unwrap();
    doc.encrypt(&state).unwrap();
    let mut out: Vec<u8> = Vec::new();
    doc.save_to(&mut out).unwrap();
    out
}

fn gif_of(width: u16, height: u16) -> Vec<u8> {
    let mut b = b"GIF89a".to_vec();
    b.extend_from_slice(&width.to_le_bytes());
    b.extend_from_slice(&height.to_le_bytes());
    b.extend_from_slice(&[0; 16]);
    b
}

fn extracted(bytes: &[u8]) -> String {
    classify_and_extract(bytes).unwrap().1.unwrap()
}

fn refused(bytes: &[u8]) -> String {
    classify_and_extract(bytes).unwrap_err().message()
}

#[test]
fn image_types_are_decided_by_magic_bytes_not_by_name() {
    assert_eq!(image_media_type(&[0x89, b'P', b'N', b'G', 13, 10, 26, 10]), Some("image/png"));
    assert_eq!(image_media_type(&[0xFF, 0xD8, 0xFF, 0xE0]), Some("image/jpeg"));
    assert_eq!(image_media_type(b"GIF89a....."), Some("image/gif"));
    assert_eq!(image_media_type(b"RIFF\0\0\0\0WEBPVP8 "), Some("image/webp"));
    // Formats the model does not take, however they are named.
    assert_eq!(image_media_type(b"BM\0\0\0\0\0\0\0\0\0\0"), None);
    assert_eq!(image_media_type(b"<svg xmlns=\"htt"), None);
    assert_eq!(image_media_type(b"RIFF\0\0\0\0AVI "), None);
}

#[test]
fn source_code_is_text_and_a_binary_is_refused() {
    let (kind, extracted) =
        classify_and_extract(b"fn main() { println!(\"hi\"); }\n").unwrap();
    assert_eq!(kind, Kind::Text);
    assert!(extracted.unwrap().contains("fn main()"));

    // A NUL is the giveaway: real text does not carry one.
    assert!(classify_and_extract(&[0x7F, b'E', b'L', b'F', 0x02, 0x00, 0x01]).is_err());

    // Bytes that are not valid UTF-8.
    assert!(classify_and_extract(&[0xC0, 0xC1, 0xF5, 0xFF]).is_err());
}

#[test]
fn a_pdf_is_recognised_and_a_damaged_one_is_refused() {
    // The magic is there but the body is not a document.
    let err = refused(b"%PDF-1.7\nnot actually a pdf");
    assert!(err.contains("damaged"), "{err}");
}

#[test]
fn a_docx_yields_its_paragraphs() {
    let docx = zip_of(&[(
        "word/document.xml",
        r#"<?xml version="1.0"?><w:document xmlns:w="x"><w:body>
           <w:p><w:r><w:t>Ana Kirtsova</w:t></w:r></w:p>
           <w:p><w:r><w:t>ships in Q4 &amp; Q1</w:t></w:r></w:p>
           </w:body></w:document>"#,
    )]);
    let (kind, text) = classify_and_extract(&docx).unwrap();
    assert_eq!(kind, Kind::Office);
    let text = text.unwrap();
    assert!(text.contains("Ana Kirtsova"), "{text}");
    // The entity came back as a character, not as "&amp;".
    assert!(text.contains("ships in Q4 & Q1"), "{text}");
}

#[test]
fn pptx_slides_are_read_in_slide_order_with_their_notes() {
    let mut parts: Vec<(String, String)> = Vec::new();
    for i in [1, 2, 9, 10] {
        parts.push((
            format!("ppt/slides/slide{i}.xml"),
            format!(r#"<p:sld xmlns:a="x"><a:p><a:t>slide {i}</a:t></a:p></p:sld>"#),
        ));
    }
    parts.push((
        "ppt/notesSlides/notesSlide1.xml".into(),
        r#"<p:notes xmlns:a="x"><a:p><a:t>the note</a:t></a:p></p:notes>"#.into(),
    ));
    let refs: Vec<(&str, &str)> = parts.iter().map(|(a, b)| (a.as_str(), b.as_str())).collect();

    let (kind, text) = classify_and_extract(&zip_of(&refs)).unwrap();
    assert_eq!(kind, Kind::Office);
    let text = text.unwrap();
    let at = |s: &str| text.find(s).unwrap_or_else(|| panic!("{s} missing from {text}"));
    assert!(at("slide 1") < at("slide 2"));
    assert!(at("slide 2") < at("slide 9"));
    assert!(at("slide 9") < at("slide 10"), "slide10 sorted as a string");
    // Notes come after every slide, not interleaved with them.
    assert!(at("slide 10") < at("the note"));
}

#[test]
fn opendocument_and_xlsx_shared_strings_are_read() {
    let odt = zip_of(&[(
        "content.xml",
        r#"<office xmlns:text="x"><text:p>from an odt</text:p></office>"#,
    )]);
    assert!(extracted(&odt).contains("from an odt"));

    let xlsx = zip_of(&[(
        "xl/sharedStrings.xml",
        r#"<sst xmlns="x"><si><t>Q4 revenue</t></si></sst>"#,
    )]);
    assert!(extracted(&xlsx).contains("Q4 revenue"));
}

#[test]
fn a_plain_zip_archive_is_refused_as_not_a_document() {
    let plain = zip_of(&[("holiday/beach.txt", "not a document part")]);
    let err = refused(&plain);
    assert!(err.contains("not a document"), "{err}");
}

#[test]
fn an_over_large_archive_member_is_refused() {
    // Compresses to almost nothing; expands past the ceiling.
    let huge = "A".repeat((MAX_ZIP_ENTRY_BYTES + 1024) as usize);
    let bomb = zip_of(&[("word/document.xml", &huge)]);
    let err = refused(&bomb);
    assert!(err.contains("expands to more"), "{err}");
}

#[test]
fn a_file_over_the_cap_is_refused_and_leaves_nothing_behind() {
    assert!(check_copied(MAX_FILE_BYTES + 1).is_err());
    assert_eq!(check_copied(12).unwrap(), 12);
    // An empty file is not context, it is a mis-click.
    assert!(check_copied(0).is_err());
    assert_eq!(check_copied(MAX_FILE_BYTES).unwrap(), MAX_FILE_BYTES);
}

#[test]
fn one_full_size_file_fits_the_meeting_total() {
    assert!(MAX_FILE_BYTES as i64 * 2 <= MAX_TOTAL_FILE_BYTES);
}

#[test]
fn the_stored_name_is_never_derived_from_the_original() {
    let hostile = "../../../../etc/cron.d/evil.txt";
    assert_eq!(display_name(hostile), "evil.txt");
    let stored = opaque_name();
    assert_eq!(stored.len(), 24);
    assert!(stored.chars().all(|c| c.is_ascii_hexdigit()));
    assert_ne!(stored, opaque_name());
}

#[test]
fn extracted_text_is_capped_per_file() {
    let long = "x".repeat(MAX_EXTRACTED_CHARS_PER_FILE * 2);
    assert_eq!(cap_chars(&long).chars().count(), MAX_EXTRACTED_CHARS_PER_FILE);
    // Capped by characters, not bytes.
    let accents = "é".repeat(MAX_EXTRACTED_CHARS_PER_FILE + 10);
    assert_eq!(cap_chars(&accents).chars().count(), MAX_EXTRACTED_CHARS_PER_FILE);
}

#[test]
fn a_pdf_is_taken_by_its_pages() {
    assert_eq!(classify_and_extract(&pdf_of(3)).unwrap().0, Kind::Pdf);
    assert!(classify_and_extract(&pdf_of(20)).is_ok());
    assert_eq!(refused(&pdf_of(21)), "that PDF has 21 pages; the limit is 20");
    assert_eq!(check_pdf(Some((true, 1))).unwrap_err().message(), "that PDF is encrypted");
    assert!(check_pdf(Some((false, 20))).is_ok());
}

#[test]
fn an_image_is_taken_by_its_pixels() {
    assert_eq!(classify_and_extract(&gif_of(640, 480)).unwrap().0, Kind::Image);
    assert_eq!(refused(&gif_of(60000, 50000)), "that image is 60000x50000, too large to send");
    assert_eq!(refused(b"GIF89a"), "that image could not be read");
    assert!(check_image(Some((50_000, 1_000))).is_ok());
    assert!(check_image(Some((50_000, 1_001))).is_err());
}

#[test]
fn an_office_file_says_why_it_is_refused() {
    assert_eq!(refused(b"PK\x03\x04rubbish"), "that Office file could not be opened");
    let blank = zip_of(&[("word/document.xml", "<w:p> </w:p>")]);
    assert_eq!(refused(&blank), "that Office file has no text in it");
    assert_eq!(refused(b"a\0b"), "that looks like a binary file, not text");
    assert_eq!(refused(&[0xff, 0xfe, 0x61]), "that is not a text file this can read");
}

#[test]
fn character_references_are_resolved() {
    let docx = zip_of(&[("word/document.xml", "<w:p><w:t>a&#65;&#x42;&lt;&unknown;c</w:t></w:p>")]);
    let text = extracted(&docx);
    assert!(text.starts_with("aAB<"), "{text}");
    assert!(text.ends_with('c'), "{text}");
}

#[test]
fn parts_are_ranked_and_numbered() {
    assert!(is_prose_part("ppt/slides/slide3.xml"));
    assert!(!is_prose_part("ppt/media/image1.png"));
    assert_eq!(part_rank("word/document.xml"), 0);
    assert_eq!(part_rank("ppt/slides/slide1.xml"), 1);
    assert_eq!(part_rank("ppt/notesSlides/notesSlide1.xml"), 2);
    assert_eq!(part_rank("xl/worksheets/sheet1.xml"), 3);
    assert_eq!(numeric_suffix("ppt/slides/slide12.xml"), 12);
    assert_eq!(numeric_suffix("content.xml"), 0);
    assert_eq!(numeric_suffix("slide99999999999.xml"), 0);
    let names: Vec<String> = [
        "ppt/notesSlides/notesSlide1.xml",
        "ppt/slides/slide10.xml",
        "docProps/app.xml",
        "ppt/slides/slide2.xml",
    ]
    .iter()
    .map(|s| s.to_string())
    .collect();
    assert_eq!(
        wanted_parts(&names),
        ["ppt/slides/slide2.xml", "ppt/slides/slide10.xml", "ppt/notesSlides/notesSlide1.xml"]
    );
}

#[test]
fn sizes_are_written_like_the_formatter_writes_them() {
    for n in [0u64, 511, 512, 1024, 1535, 1536, 2560, 1_048_575, 1_048_576, 1_572_864, 2_621_440,
        26_214_400, 9_007_199_254_740_993, u64::MAX]
    {
        let f = n as f64;
        let want = if n >= 1024 * 1024 {
            format!("{:.0} MB", f / 1048576.0)
        } else {
            format!("{:.0} kB", f / 1024.0)
        };
        assert_eq!(human(n), want, "{n}");
    }
}

#[test]
fn copies_stand_beside_the_store() {
    assert_eq!(root("/home/a/store.db"), "/home/a/meetings");
    assert_eq!(meeting_dir("/home/a/store.db", 7), "/home/a/meetings/7");
    assert_eq!(root("store.db"), "meetings");
}

#[test]
fn paths_are_taken_apart_and_joined() {
    for p in ["/a/b.txt", "a", "/", "", "a/b/", "a/..", "../x", "/a//b", "./a", "a/./b", "a/."] {
        let std_name = Path::new(p).file_name().map(|n| n.to_str().unwrap().to_string());
        assert_eq!(file_name(p), std_name, "file_name({p:?})");
        let std_parent = Path::new(p).parent().map(|n| n.to_str().unwrap().to_string());
        assert_eq!(parent(p), std_parent, "parent({p:?})");
    }
    assert_eq!(join("/a", "b"), "/a/b");
    assert_eq!(join("/a/", "b"), "/a/b");
}

#[test]
fn a_chosen_path_is_refused_by_what_it_is() {
    let try_it = |t: FileType, len: u64| plan("/s/store.db", 3, "/x/deck.pdf", t, len);
    let message = |t: FileType, len: u64| match try_it(t, len) {
        Ok(_) => panic!("accepted"),
        Err(e) => e.message(),
    };
    assert_eq!(message(FileType::Symlink, 1), "that is a symlink, not a file");
    assert_eq!(message(FileType::Directory, 1), "that is a folder — attach the files inside it");
    assert_eq!(message(FileType::Other, 1), "that is not a regular file");
    assert_eq!(
        message(FileType::Regular, 30 * 1024 * 1024),
        "deck.pdf is 30 MB, over the 25 MB limit for one file"
    );
    let p = match try_it(FileType::Regular, 10) {
        Ok(p) => p,
        Err(e) => panic!("{}", e.message()),
    };
    assert_eq!(p.name, "deck.pdf");
    assert_eq!(p.dir, "/s/meetings/3");
    assert_eq!(p.temp, format!("{}.tmp", p.final_path));
    assert!(p.final_path.starts_with("/s/meetings/3/"));
    assert!(!p.final_path.contains("deck"));
    let final_path = p.final_path.clone();
    let staged = match stage(p, 5, b"hello") {
        Ok(s) => s,
        Err(e) => panic!("{}", e.message()),
    };
    assert_eq!(staged.path(), final_path);
    assert_eq!((staged.kind.as_str(), staged.bytes), ("text", 5));
    assert_eq!(staged.extracted.as_deref(), Some("hello"));
}

#[test]
fn the_sweep_takes_orphans_and_interrupted_copies() {
    let entry = |name: &str, files: &[&str]| SweepEntry {
        name: name.to_string(),
        files: files.iter().map(|s| s.to_string()).collect(),
    };
    let entries = vec![
        entry("1", &["aa", "bb.tmp", ".tmp"]),
        entry("2", &["cc"]),
        entry("notes", &["x.tmp"]),
    ];
    let steps = sweep_orphans(&entries, &vec![1]);
    assert_eq!(steps.len(), 2);
    assert!(matches!(&steps[0], SweepStep::Leftover(d, f) if d == "1" && f == "bb.tmp"));
    assert!(matches!(&steps[1], SweepStep::Meeting(2)));
}

#[test]
fn what_a_pdf_is_follows_from_what_was_found_of_it() {
    let pdf = b"%PDF-1.7\n";
    assert!(matches!(classify_with(pdf, Some((false, 20))), Ok((Kind::Pdf, None))));
    let refused = |facts| classify_with(pdf, facts).unwrap_err().message();
    assert_eq!(refused(Some((true, 1))), "that PDF is encrypted");
    assert_eq!(refused(Some((false, 21))), "that PDF has 21 pages; the limit is 20");
    assert_eq!(refused(None), classify_and_extract(pdf).unwrap_err().message());
    // What is no PDF is judged without them.
    let png = [0x89, 0x50, 0x4e, 0x47];
    assert_eq!(
        classify_with(&png, Some((true, 99))).unwrap_err().message(),
        classify_with(&png, None).unwrap_err().message()
    );
    let docx = zip_of(&[("word/document.xml", "<w:p><w:t>hi</w:t></w:p>")]);
    assert_eq!(classify_with(&docx, Some((true, 99))).unwrap().1.as_deref(), Some("hi"));
}

#[test]
fn a_sheet_gives_its_inline_strings_and_neither_numbers_nor_formulas() {
    let sheet = "<worksheet><c t=\"inlineStr\"><is><t>hi</t></is></c>\
                 <c><f>A1*2</f><v>42</v></c></worksheet>";
    let got = text(&zip_of(&[("xl/worksheets/sheet1.xml", sheet)])).unwrap();
    assert_eq!(got, "hi");
    assert!(!got.contains("A1*2") && !got.contains("42"));
    let rich = b"<x:sheet>7<x:is><x:r>a&amp;</x:r><x:r>b</x:r></x:is>8<is/>9</x:sheet>";
    assert_eq!(strip_part("xl/worksheets/sheet2.xml", rich), "a&b");
    // Elsewhere every text counts.
    assert_eq!(strip_part("xl/sharedStrings.xml", rich), "7a&b89");
    let book = zip_of(&[
        ("xl/worksheets/sheet1.xml", sheet),
        ("xl/sharedStrings.xml", "<sst><si><t>shared</t></si></sst>"),
    ]);
    assert_eq!(text(&book).unwrap(), "shared\nhi");
}

#[test]
fn a_locked_pdf_is_refused_and_one_without_a_password_is_read() {
    assert_eq!(refused(&locked_pdf_of(3, "secret")), "that PDF is encrypted");
    assert_eq!(classify_and_extract(&locked_pdf_of(3, "")).unwrap().0, Kind::Pdf);
    assert_eq!(refused(&locked_pdf_of(21, "")), "that PDF has 21 pages; the limit is 20");
}

#[test]
fn parts_are_numbered_by_their_names() {
    for n in [0u32, 1, 9, 10, 99, 100, u32::MAX] {
        assert_eq!(numeric_suffix(&format!("ppt/slides/slide{n}.xml")), n);
        assert_eq!(numeric_suffix(&format!("{n}.xml")), n);
    }
    assert_eq!(numeric_suffix("word/document.xml"), 0);
    let names: Vec<String> =
        [10u32, 9, 100, 2].iter().map(|n| format!("ppt/slides/slide{n}.xml")).collect();
    let numbers: Vec<u32> = wanted_parts(&names).iter().map(|n| numeric_suffix(n)).collect();
    assert_eq!(numbers, [2, 9, 10, 100]);
}

#[test]
fn every_meeting_has_its_own_directory() {
    let ids = [0, 1, -1, 10, i64::MAX, i64::MIN];
    for store in ["/home/a/store.db", "store.db", "/", ""] {
        for a in ids {
            let dir = meeting_dir(store, a);
            assert_eq!(file_name(&dir), Some(a.to_string()));
            assert_eq!(parent(&dir), Some(root(store)));
            assert_eq!(Path::new(&dir).parent(), Some(Path::new(&root(store))));
            for b in ids {
                assert_eq!(dir == meeting_dir(store, b), a == b);
            }
        }
    }
}

#[test]
fn a_copy_is_named_by_what_was_drawn() {
    let draws: Vec<u8> = (0..16).collect();
    assert_eq!(hex_name(&draws), "0123456789abcdef");
    assert_eq!(hex_name(&vec![]), "");
    let stem = hex_name(&vec![15; 24]);
    assert_eq!(stem, "f".repeat(24));
    let p = plan_as("/s/store.db", 3, "/x/deck.pdf", FileType::Regular, 9, &stem).unwrap();
    assert_eq!(p.dir, "/s/meetings/3");
    assert_eq!(p.final_path, format!("/s/meetings/3/{stem}"));
    assert_eq!(p.temp, format!("/s/meetings/3/{stem}.tmp"));
    assert_eq!(p.name, "deck.pdf");
    assert_eq!(
        plan_as("/s/store.db", 3, "/x/y", FileType::Symlink, 9, &stem).err().unwrap().message(),
        "that is a symlink, not a file"
    );
    // Two draws of ninety-six bits are not expected to meet.
    assert_ne!(opaque_name(), opaque_name());
}
