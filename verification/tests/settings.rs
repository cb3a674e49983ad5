use eup_resizer::settings::{
    ForceFormat, MipHandling, OutputFormatMode, OutputMode, Quality, ResizeMode, Settings,
};
use eup_resizer::texture_format::TextureFormat;

#[test]
fn defaults_are_those_shown_at_first_start() {
    let s = Settings::default();
    assert_eq!(s.resize_mode, ResizeMode::CapResolution);
    assert_eq!(s.cap_resolution, 1024);
    assert_eq!(s.scale_percent, 50);
    assert_eq!(s.output_format, OutputFormatMode::KeepOriginal);
    assert_eq!(s.quality, Quality::Medium);
    assert_eq!(s.mip_handling, MipHandling::Regenerate);
    assert_eq!(s.min_size_floor, 64);
    assert_eq!(s.skip_substrings, "");
    assert_eq!(s.output_mode, OutputMode::SeparateFolder);
    assert!(!s.dry_run);
    assert!(s.input_folder.is_none());
    assert!(s.input_folders.is_empty());
    assert!(s.output_folder.is_none());
}

#[test]
fn skip_list_trims_lowers_and_drops_empty_entries() {
    let mut s = Settings::default();
    assert!(s.skip_list().is_empty());
    s.skip_substrings = " Logo, ,BADGE,,\tÄrmel \n".to_string();
    assert_eq!(s.skip_list(), vec!["logo", "badge", "ärmel"]);
    s.skip_substrings = "one".to_string();
    assert_eq!(s.skip_list(), vec!["one"]);
}

#[test]
fn force_formats_name_their_pixel_formats() {
    let formats: Vec<TextureFormat> = ForceFormat::ALL
        .iter()
        .map(|f| f.to_ytd_format())
        .collect();
    assert_eq!(
        formats,
        vec![
            TextureFormat::DXT1,
            TextureFormat::DXT3,
            TextureFormat::DXT5,
            TextureFormat::BC7
        ]
    );
    assert_eq!(ForceFormat::Bc1.label(), "BC1 / DXT1 (no alpha, smallest)");
    assert_eq!(ForceFormat::Bc2.label(), "BC2 / DXT3 (sharp alpha)");
    assert_eq!(ForceFormat::Bc3.label(), "BC3 / DXT5 (smooth alpha)");
    assert_eq!(ForceFormat::Bc7.label(), "BC7 (best quality)");
}

#[test]
fn an_older_input_folder_becomes_the_first_of_the_list() {
    let mut s = Settings::default();
    s.input_folder = Some("a".to_string());
    s.adopt_input_folder();
    assert_eq!(s.input_folders, vec!["a"]);
    assert!(s.input_folder.is_none());

    s.input_folder = Some("b".to_string());
    s.adopt_input_folder();
    assert_eq!(s.input_folders, vec!["a"]);
    assert_eq!(s.input_folder.as_deref(), Some("b"));
}

#[test]
fn a_skip_list_is_read_back() {
    let mut s = Settings::default();
    s.skip_substrings = " A b ,\t, C,,z ,".to_string();
    let list = s.skip_list();
    assert_eq!(list, vec!["a b", "c", "z"]);
    s.skip_substrings = list.join(",");
    assert_eq!(s.skip_list(), list);
    s.skip_substrings = " , \t".to_string();
    assert!(s.skip_list().is_empty());
}

#[test]
fn a_forced_format_starts_as_bc7() {
    let mut s = Settings::default();
    s.choose_forced_format();
    assert_eq!(s.output_format, OutputFormatMode::Force(ForceFormat::Bc7));
    s.output_format = OutputFormatMode::Force(ForceFormat::Bc1);
    s.choose_forced_format();
    assert_eq!(s.output_format, OutputFormatMode::Force(ForceFormat::Bc1));
}

#[test]
fn overwriting_in_place_starts_with_a_backup() {
    let mut s = Settings::default();
    s.choose_overwrite_in_place();
    assert_eq!(s.output_mode, OutputMode::OverwriteInPlace { backup: true });
    s.output_mode = OutputMode::OverwriteInPlace { backup: false };
    s.choose_overwrite_in_place();
    assert_eq!(s.output_mode, OutputMode::OverwriteInPlace { backup: false });
}
