use m3u_emu::types::{DiscNumber, MediaFile, MediaType};

#[test]
fn test_media_type_from_extension_floppy() {
    assert_eq!(MediaType::from_extension("adf"), Some(MediaType::Floppy));
    assert_eq!(MediaType::from_extension("ADF"), Some(MediaType::Floppy));
    assert_eq!(MediaType::from_extension("d64"), Some(MediaType::Floppy));
}

#[test]
fn test_media_type_from_extension_disc_index() {
    assert_eq!(MediaType::from_extension("cue"), Some(MediaType::DiscIndex));
    assert_eq!(MediaType::from_extension("CUE"), Some(MediaType::DiscIndex));
    assert_eq!(MediaType::from_extension("gdi"), Some(MediaType::DiscIndex));
}

#[test]
fn test_media_type_from_extension_disc_image() {
    assert_eq!(MediaType::from_extension("iso"), Some(MediaType::DiscImage));
    assert_eq!(MediaType::from_extension("chd"), Some(MediaType::DiscImage));
}

#[test]
fn test_media_type_from_extension_unknown() {
    assert_eq!(MediaType::from_extension("txt"), None);
    assert_eq!(MediaType::from_extension("exe"), None);
}

#[test]
fn test_media_type_is_floppy() {
    assert!(MediaType::Floppy.is_floppy());
    assert!(!MediaType::DiscIndex.is_floppy());
    assert!(!MediaType::DiscImage.is_floppy());
}

#[test]
fn every_listed_extension_has_its_format_in_any_case() {
    let floppy = [
        "ipf", "adf", "adz", "dms", "dim", "d64", "d71", "d81", "d88", "dsk", "ima", "fdi", "qd",
        "fds", "tap", "tzx", "cas",
    ];
    let index = ["cue", "toc", "ccd", "gdi"];
    let image = ["mds", "cdi", "img", "iso", "chd", "rvz"];
    for ext in floppy {
        assert_eq!(MediaType::from_extension(ext), Some(MediaType::Floppy));
        assert_eq!(MediaType::from_extension(&ext.to_uppercase()), Some(MediaType::Floppy));
    }
    for ext in index {
        assert_eq!(MediaType::from_extension(ext), Some(MediaType::DiscIndex));
        assert_eq!(MediaType::from_extension(&ext.to_uppercase()), Some(MediaType::DiscIndex));
    }
    for ext in image {
        assert_eq!(MediaType::from_extension(ext), Some(MediaType::DiscImage));
        assert_eq!(MediaType::from_extension(&ext.to_uppercase()), Some(MediaType::DiscImage));
    }
    assert_eq!(MediaType::from_extension("IsO"), Some(MediaType::DiscImage));
    assert_eq!(MediaType::from_extension("cUe"), Some(MediaType::DiscIndex));
}

#[test]
fn unlisted_extensions_have_no_format() {
    assert_eq!(MediaType::from_extension(""), None);
    assert_eq!(MediaType::from_extension("bin"), None);
    assert_eq!(MediaType::from_extension("m3u"), None);
    assert_eq!(MediaType::from_extension("cues"), None);
    assert_eq!(MediaType::from_extension("cu"), None);
    assert_eq!(MediaType::from_extension(".cue"), None);
    assert_eq!(MediaType::from_extension("cu\u{e9}"), None);
}

#[test]
fn extension_matching_follows_unicode_case_mapping() {
    // U+212A KELVIN SIGN has the small letter k for its lower case.
    assert_eq!(MediaType::from_extension("ds\u{212A}"), Some(MediaType::Floppy));
    assert_eq!(MediaType::from_extension("DS\u{212A}"), Some(MediaType::Floppy));
}

#[test]
fn disc_number_counts_tenths() {
    assert_eq!(DiscNumber::whole(0).tenths, 0);
    assert_eq!(DiscNumber::whole(2).tenths, 20);
    assert_eq!(DiscNumber::with_side(2, 1).tenths, 21);
    assert_eq!(DiscNumber::with_side(0, 3).tenths, 3);
    assert_eq!(DiscNumber::whole(u32::MAX).tenths, 42_949_672_950);
    assert_eq!(DiscNumber::with_side(u32::MAX, u32::MAX).tenths, 47_244_640_245);
    assert_eq!(DiscNumber::with_side(1, 12), DiscNumber::with_side(2, 2));
}

#[test]
fn media_file_is_floppy_follows_its_type() {
    let mut file = MediaFile {
        path: "/roms/Game (Disk 1).adf".to_string(),
        filename: "Game (Disk 1).adf".to_string(),
        base_name: "Game".to_string(),
        disc_number: DiscNumber::whole(1),
        media_type: MediaType::Floppy,
    };
    assert!(file.is_floppy());
    file.media_type = MediaType::DiscImage;
    assert!(!file.is_floppy());
}
