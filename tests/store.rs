use clog::content::{
    add_file_with_content, decrypt_content_from_file, edit_file_with_content, Clog,
};
use clog::error::ClogError;
use clog::layout::HEADER_LENGTH;
use clog::metadata::{add_folder, daily_check_and_update_metadata, File, Folder, Metadata};
use clog::ops::{
    add_file, edit_file, get_file_content, make_new_clogfile, rotate_folders, WELCOME_NAME,
    WELCOME_TEXT,
};
use clog::store::{extract_metadata_from_file, seal_image, update_metadata_in_file};

const DAY: &str = "01/01/2030";
const NEXT_DAY: &str = "02/01/2030";

fn record<'a>(clog: &'a Clog, folder: &str, name: &str) -> &'a File {
    let f = &clog.metadata.folders.iter().find(|(n, _)| n == folder).unwrap().1;
    &f.files.iter().find(|(n, _)| n == name).unwrap().1
}

fn store_on(day: &str) -> Clog {
    let mut clog = make_new_clogfile();
    rotate_folders(&mut clog, day);
    clog
}

fn all_records(clog: &Clog) -> Vec<(usize, usize)> {
    let mut v = Vec::new();
    for (_, folder) in &clog.metadata.folders {
        for (_, f) in &folder.files {
            v.push((f.offset, f.length));
        }
    }
    v
}

fn assert_tiled(clog: &Clog) {
    let mut pos = HEADER_LENGTH;
    for (offset, length) in all_records(clog) {
        assert_eq!(offset, pos);
        assert!(length > 0);
        pos += length;
    }
    assert_eq!(pos, HEADER_LENGTH + clog.content.len());
}

#[test]
fn new_store_holds_the_welcome_entry() {
    let clog = make_new_clogfile();
    assert_eq!(clog.metadata.folders.len(), 1);
    assert_eq!(clog.salt.len(), 16);
    let today = clog.metadata.folders[0].0.clone();
    let text = get_file_content(&clog, WELCOME_NAME, &today).unwrap();
    assert_eq!(text, WELCOME_TEXT);
    let welcome = record(&clog, &today, WELCOME_NAME);
    assert_eq!(welcome.offset, HEADER_LENGTH);
    // 79 bytes of text, a 16-byte tag, base64: 4 * ceil(95 / 3)
    assert_eq!(WELCOME_TEXT.len(), 79);
    assert_eq!(welcome.length, 128);
    assert_eq!(clog.content.len(), 128);
}

#[test]
fn added_entries_read_back() {
    let mut clog = store_on(DAY);
    for (name, text) in [("a", ""), ("b", "x"), ("c", "héllo wörld ✓"), ("d", "line\nbreaks\n")] {
        add_file(&mut clog, name, DAY, text, DAY).unwrap();
        assert_eq!(get_file_content(&clog, name, DAY).unwrap(), text);
    }
    let bytes = decrypt_content_from_file(&clog, DAY, "b").unwrap();
    assert_eq!(bytes, b"x".to_vec());
    assert_tiled(&clog);
}

#[test]
fn stored_length_follows_plaintext_length() {
    let mut clog = store_on(DAY);
    add_file(&mut clog, "a", DAY, "hello", DAY).unwrap();
    add_file(&mut clog, "b", DAY, "hello world", DAY).unwrap();
    assert_eq!(record(&clog, DAY, "a").length, 28);
    assert_eq!(record(&clog, DAY, "b").length, 36);
    // the ciphertext is base64, not the plaintext
    let a = record(&clog, DAY, "a");
    let start = a.offset - HEADER_LENGTH;
    assert_ne!(&clog.content[start..start + 5], b"hello");
}

#[test]
fn shrinking_an_entry_moves_the_later_ones() {
    let mut clog = store_on(DAY);
    add_file(&mut clog, "a.txt", DAY, "hello", DAY).unwrap();
    add_file(&mut clog, "b.txt", DAY, "hello world", DAY).unwrap();
    let a_before = record(&clog, DAY, "a.txt").length;
    let b_before = record(&clog, DAY, "b.txt").offset;
    let content_before = clog.content.len();
    edit_file(&mut clog, "a.txt", DAY, "hi", DAY).unwrap();
    let a_after = record(&clog, DAY, "a.txt").length;
    let delta = a_after as isize - a_before as isize;
    assert_eq!(delta, -4);
    assert_eq!(record(&clog, DAY, "b.txt").offset as isize, b_before as isize + delta);
    assert_eq!(clog.content.len() as isize, content_before as isize + delta);
    assert_eq!(get_file_content(&clog, "b.txt", DAY).unwrap(), "hello world");
    assert_eq!(get_file_content(&clog, "a.txt", DAY).unwrap(), "hi");
    assert_tiled(&clog);
}

#[test]
fn growing_an_entry_moves_the_later_ones() {
    let mut clog = store_on(DAY);
    add_file(&mut clog, "one", DAY, "1", DAY).unwrap();
    add_file(&mut clog, "two", DAY, "2", DAY).unwrap();
    add_file(&mut clog, "three", DAY, "3", DAY).unwrap();
    let long = "a much longer entry than before";
    edit_file_with_content(&mut clog, DAY, "two", long).unwrap();
    assert_eq!(get_file_content(&clog, "one", DAY).unwrap(), "1");
    assert_eq!(get_file_content(&clog, "two", DAY).unwrap(), long);
    assert_eq!(get_file_content(&clog, "three", DAY).unwrap(), "3");
    assert_tiled(&clog);
}

#[test]
fn editing_to_the_same_content_rotates_the_nonce_only() {
    let mut clog = store_on(DAY);
    add_file(&mut clog, "a", DAY, "same", DAY).unwrap();
    add_file(&mut clog, "b", DAY, "other", DAY).unwrap();
    let nonce_before = record(&clog, DAY, "a").nonce.clone();
    let key_before = record(&clog, DAY, "a").key.clone();
    let spans_before = all_records(&clog);
    let len_before = clog.content.len();
    edit_file(&mut clog, "a", DAY, "same", DAY).unwrap();
    assert_ne!(record(&clog, DAY, "a").nonce, nonce_before);
    assert_eq!(record(&clog, DAY, "a").key, key_before);
    assert_eq!(all_records(&clog), spans_before);
    assert_eq!(clog.content.len(), len_before);
    assert_eq!(get_file_content(&clog, "a", DAY).unwrap(), "same");
    assert_eq!(get_file_content(&clog, "b", DAY).unwrap(), "other");
}

#[test]
fn many_adds_and_edits_keep_the_entries_tiled() {
    let mut clog = store_on(DAY);
    let mut texts: Vec<(String, String)> = Vec::new();
    for i in 0..8 {
        let name = format!("entry{}", i);
        let text = "x".repeat(i * 7);
        add_file(&mut clog, &name, DAY, &text, DAY).unwrap();
        texts.push((name, text));
        assert_tiled(&clog);
    }
    for i in [3usize, 0, 7, 5] {
        let text = "y".repeat(50 - i * 5);
        edit_file(&mut clog, &texts[i].0, DAY, &text, DAY).unwrap();
        texts[i].1 = text;
        assert_tiled(&clog);
    }
    for (name, text) in &texts {
        assert_eq!(&get_file_content(&clog, name, DAY).unwrap(), text);
    }
}

#[test]
fn missing_folder_or_entry_is_not_found() {
    let mut clog = store_on(DAY);
    add_file(&mut clog, "a", DAY, "a", DAY).unwrap();
    assert!(matches!(get_file_content(&clog, "zzz", DAY), Err(ClogError::NotFound)));
    assert!(matches!(get_file_content(&clog, "a", "31/12/1999"), Err(ClogError::NotFound)));
    assert!(matches!(
        add_file_with_content(&mut clog, "31/12/1999", "a", "x"),
        Err(ClogError::NotFound)
    ));
    assert!(matches!(edit_file(&mut clog, "zzz", DAY, "x", DAY), Err(ClogError::NotFound)));
}

#[test]
fn a_taken_name_is_already_exists_and_changes_nothing() {
    let mut clog = store_on(DAY);
    add_file(&mut clog, "a", DAY, "first", DAY).unwrap();
    let content = clog.content.clone();
    assert!(matches!(add_file(&mut clog, "a", DAY, "second", DAY), Err(ClogError::AlreadyExists)));
    assert_eq!(clog.content, content);
    assert_eq!(get_file_content(&clog, "a", DAY).unwrap(), "first");
}

#[test]
fn folder_rotation_closes_the_past_day() {
    let mut clog = store_on(DAY);
    add_file(&mut clog, "a", DAY, "on day one", DAY).unwrap();
    rotate_folders(&mut clog, NEXT_DAY);
    let names: Vec<&str> = clog.metadata.folders.iter().map(|(n, _)| n.as_str()).collect();
    assert_eq!(names.last(), Some(&NEXT_DAY));
    let day = &clog.metadata.folders.iter().find(|(n, _)| n == DAY).unwrap().1;
    assert!(day.is_read_only());
    let next = &clog.metadata.folders.iter().find(|(n, _)| n == NEXT_DAY).unwrap().1;
    assert!(!next.is_read_only());
    assert!(matches!(
        add_file_with_content(&mut clog, DAY, "b", "late"),
        Err(ClogError::ReadOnly)
    ));
    assert!(matches!(edit_file(&mut clog, "a", DAY, "changed", NEXT_DAY), Err(ClogError::ReadOnly)));
    assert_eq!(get_file_content(&clog, "a", DAY).unwrap(), "on day one");
    add_file(&mut clog, "b", NEXT_DAY, "on day two", NEXT_DAY).unwrap();
    assert_eq!(get_file_content(&clog, "b", NEXT_DAY).unwrap(), "on day two");
    assert_tiled(&clog);
}

#[test]
fn rotation_is_idempotent_and_one_way() {
    let mut metadata = Metadata::new();
    add_folder(&mut metadata, DAY).unwrap();
    assert!(matches!(add_folder(&mut metadata, DAY), Err(ClogError::AlreadyExists)));
    daily_check_and_update_metadata(&mut metadata, DAY);
    assert_eq!(metadata.folders.len(), 1);
    assert!(!metadata.folders[0].1.is_read_only());
    daily_check_and_update_metadata(&mut metadata, NEXT_DAY);
    daily_check_and_update_metadata(&mut metadata, NEXT_DAY);
    assert_eq!(metadata.folders.len(), 2);
    assert!(metadata.folders[0].1.is_read_only());
    // the clock going back does not reopen a closed day
    daily_check_and_update_metadata(&mut metadata, DAY);
    assert!(metadata.folders[0].1.is_read_only());
    assert!(metadata.folders[1].1.is_read_only());
}

#[test]
fn too_large_content_is_a_format_error() {
    let mut clog = store_on(DAY);
    let huge = "z".repeat(80_000_000);
    assert!(matches!(add_file(&mut clog, "big", DAY, &huge, DAY), Err(ClogError::Format)));
}

#[test]
fn sealed_image_opens_to_what_was_sealed() {
    let clog = store_on(DAY);
    let text = b"{\"catalog\":true}".to_vec();
    let image = update_metadata_in_file(&clog, "correct horse", &text, &[]).unwrap();
    assert_eq!(&image[..12], b"clog @0.0.1\n");
    let opened = extract_metadata_from_file(&image, "correct horse").unwrap();
    assert_eq!(opened.salt, clog.salt);
    assert_eq!(opened.nonce.len(), 12);
    assert_eq!(opened.content, clog.content);
    assert_eq!(opened.catalog_text, text);
    // the header's offset is where CONTENT ends
    let offset: usize = std::str::from_utf8(&image[63..71]).unwrap().parse().unwrap();
    assert_eq!(offset, HEADER_LENGTH + clog.content.len());
    let length: usize = std::str::from_utf8(&image[54..62]).unwrap().parse().unwrap();
    assert_eq!(offset + length, image.len());
}

#[test]
fn each_write_uses_a_new_catalog_nonce() {
    let clog = store_on(DAY);
    let a = update_metadata_in_file(&clog, "pw", b"{}", &[]).unwrap();
    let first = extract_metadata_from_file(&a, "pw").unwrap().nonce;
    let b = update_metadata_in_file(&clog, "pw", b"{}", &first).unwrap();
    let second = extract_metadata_from_file(&b, "pw").unwrap().nonce;
    assert_ne!(first, second);
    assert_ne!(&a[37..53], &b[37..53]);
    assert_ne!(a, b);
}

#[test]
fn wrong_password_is_a_crypto_error() {
    let clog = store_on(DAY);
    let image = seal_image(&clog, "right", b"{}", &[3u8; 12]).unwrap();
    assert!(matches!(extract_metadata_from_file(&image, "wrong"), Err(ClogError::Crypto)));
    assert!(matches!(extract_metadata_from_file(&image, ""), Err(ClogError::Crypto)));
    assert!(extract_metadata_from_file(&image, "right").is_ok());
}

#[test]
fn tampered_or_truncated_images_are_rejected() {
    let clog = store_on(DAY);
    let image = seal_image(&clog, "pw", b"{}", &[3u8; 12]).unwrap();
    let mut tampered = image.clone();
    let last = tampered.len() - 5;
    tampered[last] = if tampered[last] == b'A' { b'B' } else { b'A' };
    assert!(extract_metadata_from_file(&tampered, "pw").is_err());
    assert!(matches!(
        extract_metadata_from_file(&image[..image.len() - 1], "pw"),
        Err(ClogError::Format)
    ));
    assert!(matches!(extract_metadata_from_file(&image[..40], "pw"), Err(ClogError::Format)));
}

#[test]
fn tampered_content_is_a_crypto_error() {
    let mut clog = store_on(DAY);
    add_file(&mut clog, "a", DAY, "secret", DAY).unwrap();
    let a = record(&clog, DAY, "a");
    let i = a.offset - HEADER_LENGTH + 2;
    clog.content[i] = if clog.content[i] == b'A' { b'B' } else { b'A' };
    assert!(matches!(get_file_content(&clog, "a", DAY), Err(ClogError::Crypto)));
}

#[test]
fn from_parts_checks_every_invariant() {
    let clog = store_on(DAY);
    let Clog { salt, metadata, content } = clog;
    let ok = Clog::from_parts(salt.clone(), metadata, content.clone()).unwrap();
    assert_eq!(ok.content, content);

    let Clog { salt, mut metadata, content } = ok;
    metadata.folders[0].1.files[0].1.offset += 1;
    assert!(matches!(Clog::from_parts(salt.clone(), metadata, content.clone()), Err(ClogError::Format)));

    let mut m2 = Metadata::new();
    add_folder(&mut m2, DAY).unwrap();
    assert!(matches!(Clog::from_parts(vec![0u8; 15], m2, Vec::new()), Err(ClogError::Format)));

    let mut m3 = Metadata::new();
    m3.folders.push((DAY.to_string(), Folder::new()));
    m3.folders.push((DAY.to_string(), Folder::new()));
    assert!(matches!(Clog::from_parts(vec![0u8; 16], m3, Vec::new()), Err(ClogError::Format)));

    let mut m4 = Metadata::new();
    add_folder(&mut m4, DAY).unwrap();
    assert!(Clog::from_parts(vec![0u8; 16], m4, Vec::new()).is_ok());
    let mut m5 = Metadata::new();
    add_folder(&mut m5, DAY).unwrap();
    assert!(matches!(Clog::from_parts(vec![0u8; 16], m5, vec![1u8]), Err(ClogError::Format)));
}

#[test]
fn record_helpers_follow_their_contracts() {
    let mut f = File::new(100, 10);
    let first_nonce = f.nonce.clone();
    f.update_nonce();
    assert_ne!(f.nonce, first_nonce);
    assert_eq!(f.key.len(), 32);
    assert_eq!(f.nonce.len(), 12);
    f.update_offset(-30);
    assert_eq!(f.offset, 70);
    f.update_offset(5);
    assert_eq!(f.offset, 75);
    f.update_length(40);
    let (key, nonce, offset, length) = f.get_file_parameters();
    assert_eq!((key.len(), nonce.len(), offset, length), (32, 12, 75, 40));

    let mut folder = Folder::new();
    assert!(!folder.is_read_only());
    folder.add_file("n", 1, 2).unwrap();
    let kept = folder.files[0].1.key.clone();
    assert!(matches!(folder.add_file("n", 9, 9), Err(ClogError::AlreadyExists)));
    assert_eq!(folder.files.len(), 1);
    assert_eq!((folder.files[0].1.offset, folder.files[0].1.length), (1, 2));
    assert_eq!(folder.files[0].1.key, kept);
    assert!(matches!(folder.update_length("missing", 3), Err(ClogError::NotFound)));
    folder.update_length("n", 3).unwrap();
    folder.update_offset("n", 4).unwrap();
    let before = folder.files[0].1.nonce.clone();
    folder.update_nonce("n").unwrap();
    assert_ne!(folder.files[0].1.nonce, before);
    assert_eq!((folder.files[0].1.offset, folder.files[0].1.length), (5, 3));
    folder.make_read_only();
    assert!(folder.is_read_only());

    let mut m = Metadata::new();
    add_folder(&mut m, DAY).unwrap();
    m.add_file("x", DAY, 72, 8).unwrap();
    assert!(matches!(m.add_file("x", DAY, 80, 8), Err(ClogError::AlreadyExists)));
    assert!(matches!(m.add_file("x", "nope", 80, 8), Err(ClogError::NotFound)));
    m.update_file_length(DAY, "x", 9).unwrap();
    m.update_file_nonce("x", DAY).unwrap();
    assert_eq!(m.get_all_files_under_folder(DAY).unwrap()[0].1.length, 9);
    assert!(m.get_all_files_under_folder("nope").is_none());
}

#[test]
fn adding_to_a_missing_folder_is_not_found() {
    let mut clog = store_on(DAY);
    let before = clog.content.clone();
    assert!(matches!(
        add_file(&mut clog, "a", "31/12/1999", "x", DAY),
        Err(ClogError::NotFound)
    ));
    assert_eq!(clog.content, before);
    assert!(clog.metadata.folders.iter().all(|(n, _)| n != "31/12/1999"));
}

#[test]
fn a_refused_write_on_a_current_store_changes_nothing() {
    let mut clog = store_on(DAY);
    add_file(&mut clog, "a", DAY, "on day one", DAY).unwrap();
    rotate_folders(&mut clog, NEXT_DAY);
    let flags: Vec<(String, bool)> =
        clog.metadata.folders.iter().map(|(n, f)| (n.clone(), f.is_read_only())).collect();
    let content = clog.content.clone();
    assert!(matches!(add_file(&mut clog, "b", DAY, "late", NEXT_DAY), Err(ClogError::ReadOnly)));
    assert!(matches!(edit_file(&mut clog, "a", DAY, "changed", NEXT_DAY), Err(ClogError::ReadOnly)));
    let after: Vec<(String, bool)> =
        clog.metadata.folders.iter().map(|(n, f)| (n.clone(), f.is_read_only())).collect();
    assert_eq!(after, flags);
    assert_eq!(clog.content, content);
    // the newer folder is still open
    add_file(&mut clog, "c", NEXT_DAY, "still open", NEXT_DAY).unwrap();
}
