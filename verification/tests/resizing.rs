use eup_resizer::pipeline::{
    can_manage, compute_target_dims, has_target, matches_skip_list, plan_texture,
    process_texture, resize_parsed, resize_ytd_bytes, round_to_multiple_of_4, TextureOutcome,
    TexturePlan,
};
use eup_resizer::resource::encode_capacity_flags;
use eup_resizer::settings::{
    ForceFormat, MipHandling, OutputFormatMode, Quality, ResizeMode, Settings,
};
use eup_resizer::texture_format::TextureFormat;
use eup_resizer::ytd_io::{parse, ParsedYtd, RawTexture, YtdError};

fn texture(name: &str, width: u16, height: u16, format: TextureFormat) -> RawTexture {
    let stride = width * 4;
    RawTexture {
        name: name.to_string(),
        name_hash: 0,
        width,
        height,
        depth: 1,
        format,
        levels: 1,
        stride,
        pixel_data: vec![128; stride as usize * height as usize],
        struct_offset: 0x100,
    }
}

fn by_float(settings: &Settings, width: u16, height: u16) -> (u16, u16) {
    fn up(v: u32) -> u32 {
        (v.max(4) + 3) & !3
    }
    let (w, h) = (width as u32, height as u32);
    let floor = settings.min_size_floor.max(4);
    let (tw, th) = match settings.resize_mode {
        ResizeMode::CapResolution => {
            let longest = w.max(h);
            if longest <= settings.cap_resolution {
                (w, h)
            } else {
                let scale = settings.cap_resolution as f64 / longest as f64;
                (
                    ((w as f64) * scale).round() as u32,
                    ((h as f64) * scale).round() as u32,
                )
            }
        }
        ResizeMode::ScalePercent => {
            let scale = settings.scale_percent as f64 / 100.0;
            (
                ((w as f64) * scale).round() as u32,
                ((h as f64) * scale).round() as u32,
            )
        }
    };
    (
        up(tw.max(floor)).min(up(w)) as u16,
        up(th.max(floor)).min(up(h)) as u16,
    )
}

#[test]
fn targets_agree_with_doubles() {
    let mut settings = Settings::default();
    for mode in [ResizeMode::CapResolution, ResizeMode::ScalePercent] {
        settings.resize_mode = mode;
        for cap in [4u32, 100, 512, 1000, 1024, 8192] {
            settings.cap_resolution = cap;
            settings.scale_percent = cap / 10;
            for floor in [0u32, 4, 64, 511] {
                settings.min_size_floor = floor;
                for w in [0u16, 1, 3, 4, 63, 100, 512, 1000, 1025, 4096, 65532, 65535] {
                    for h in [1u16, 4, 333, 2048, 65535] {
                        assert!(has_target(&settings, w, h));
                        assert_eq!(
                            compute_target_dims(&settings, w, h),
                            by_float(&settings, w, h)
                        );
                    }
                }
            }
        }
    }
}

#[test]
fn targets_have_exact_values() {
    let mut settings = Settings::default();
    assert_eq!(compute_target_dims(&settings, 2048, 1024), (1024, 512));
    assert_eq!(compute_target_dims(&settings, 512, 300), (512, 300));
    assert_eq!(compute_target_dims(&settings, 4096, 16), (1024, 16));
    assert_eq!(compute_target_dims(&settings, 510, 2), (512, 4));
    settings.resize_mode = ResizeMode::ScalePercent;
    settings.scale_percent = 25;
    assert_eq!(compute_target_dims(&settings, 1000, 400), (252, 100));
    settings.scale_percent = 200;
    assert_eq!(compute_target_dims(&settings, 65535, 64), (0, 64));
    assert_eq!(round_to_multiple_of_4(0), 4);
    assert_eq!(round_to_multiple_of_4(9), 12);
    assert_eq!(round_to_multiple_of_4(12), 12);
}

#[test]
fn targets_beyond_32_bits_are_refused() {
    let mut settings = Settings::default();
    settings.min_size_floor = u32::MAX - 2;
    assert!(!has_target(&settings, 64, 64));
    settings.min_size_floor = 64;
    settings.resize_mode = ResizeMode::ScalePercent;
    settings.scale_percent = u32::MAX;
    assert!(!has_target(&settings, 65535, 4));
    assert!(!can_manage(
        &texture("t", 65535, 4, TextureFormat::A8R8G8B8),
        &settings,
        &[]
    ));
    assert!(has_target(&settings, 16, 16));
}

#[test]
fn a_target_is_reached_in_one_run() {
    let mut settings = Settings::default();
    for cap in [0u32, 3, 4, 30, 511, 1021, 1022, 1023, 1024, 60001] {
        settings.cap_resolution = cap;
        for floor in [0u32, 4, 64, 511, 2000] {
            settings.min_size_floor = floor;
            for (w, h) in [(4096u16, 1000u16), (3000, 17), (1025, 1023), (1, 1), (65532, 5)] {
                let (tw, th) = compute_target_dims(&settings, w, h);
                assert!(tw % 4 == 0 && th % 4 == 0);
                assert!(tw as u32 <= round_to_multiple_of_4(cap.max(floor)));
                assert_eq!(compute_target_dims(&settings, tw, th), (tw, th));
            }
        }
    }
    settings.cap_resolution = 65535;
    assert_eq!(compute_target_dims(&settings, 65535, 64), (0, 64));
}

#[test]
fn a_second_run_changes_nothing() {
    let mut settings = Settings::default();
    settings.cap_resolution = 30;
    settings.min_size_floor = 4;
    settings.output_format = OutputFormatMode::Force(ForceFormat::Bc3);
    settings.mip_handling = MipHandling::Strip;
    let tex = texture("t", 64, 40, TextureFormat::A8R8G8B8);
    let patch = process_texture(&tex, &settings, &[]).patch.unwrap();
    assert_eq!((patch.width, patch.height, patch.levels), (32, 20, 1));
    let mut again = texture("t", patch.width, patch.height, patch.format);
    again.pixel_data = patch.pixel_data;
    let outcome = process_texture(&again, &settings, &[]);
    assert!(outcome.patch.is_none() && !outcome.resized && outcome.warning.is_none());
}

#[test]
fn names_on_the_skip_list_are_found() {
    let list = vec!["logo".to_string(), "ärm".to_string()];
    assert!(matches_skip_list("My_LOGO_01", &list));
    assert!(matches_skip_list("ÄRMEL", &list));
    assert!(!matches_skip_list("jacket", &list));
    assert!(!matches_skip_list("logo", &[]));
}

#[test]
fn plans_follow_the_settings() {
    let mut settings = Settings::default();
    settings.cap_resolution = 64;
    let small = texture("small", 64, 64, TextureFormat::A8R8G8B8);
    assert!(matches!(plan_texture(&small, &settings, &[]), TexturePlan::Keep));
    let large = texture("large", 128, 64, TextureFormat::A8R8G8B8);
    assert!(matches!(
        plan_texture(&large, &settings, &[]),
        TexturePlan::Convert {
            width: 64,
            height: 64,
            format: TextureFormat::A8R8G8B8,
            resize: true,
            max_levels: 255,
        }
    ));
    assert!(matches!(
        plan_texture(&large, &settings, &["arg".to_string()]),
        TexturePlan::Keep
    ));
    settings.output_format = OutputFormatMode::Force(ForceFormat::Bc3);
    settings.mip_handling = MipHandling::Strip;
    assert!(matches!(
        plan_texture(&small, &settings, &[]),
        TexturePlan::Convert {
            width: 64,
            height: 64,
            format: TextureFormat::DXT5,
            resize: false,
            max_levels: 1,
        }
    ));
    let odd = texture("odd", 64, 64, TextureFormat::Unknown);
    match plan_texture(&odd, &settings, &[]) {
        TexturePlan::Skip { warning } => assert_eq!(
            warning,
            "'odd': format Unknown has no decoder/encoder available, left unchanged"
        ),
        _ => panic!("an unknown format cannot be converted"),
    }
}

#[test]
fn textures_are_converted() {
    let mut settings = Settings::default();
    settings.cap_resolution = 32;
    settings.min_size_floor = 4;
    settings.quality = Quality::Fast;
    let tex = texture("t", 64, 32, TextureFormat::A8R8G8B8);
    let outcome = process_texture(&tex, &settings, &[]);
    assert!(outcome.resized);
    assert!(outcome.warning.is_none());
    let patch = outcome.patch.unwrap();
    assert_eq!((patch.width, patch.height, patch.levels), (32, 16, 3));
    assert_eq!(patch.format, TextureFormat::A8R8G8B8);
    assert_eq!(patch.pixel_data.len(), 4 * (32 * 16 + 16 * 8 + 8 * 4));
    assert!(patch.pixel_data.iter().all(|b| b.abs_diff(128) <= 1));

    settings.output_format = OutputFormatMode::Force(ForceFormat::Bc7);
    let patch = process_texture(&tex, &settings, &[]).patch.unwrap();
    assert_eq!(patch.format, TextureFormat::BC7);
    assert_eq!(patch.pixel_data.len(), 16 * (32 + 8 + 2));
}

#[test]
fn textures_are_left_alone_with_a_reason() {
    let mut settings = Settings::default();
    settings.cap_resolution = 32;
    settings.min_size_floor = 4;
    let mut tex = texture("t", 64, 64, TextureFormat::A8R8G8B8);
    tex.pixel_data.truncate(100);
    let outcome = process_texture(&tex, &settings, &[]);
    assert!(!outcome.resized && outcome.patch.is_none());
    assert_eq!(
        outcome.warning.unwrap(),
        "'t': pixel data too short for A8R8G8B8 at 64x64, left unchanged"
    );
    let kept = process_texture(&tex, &settings, &["t".to_string()]);
    assert!(!kept.resized && kept.patch.is_none() && kept.warning.is_none());

    let plain = TextureOutcome::unchanged();
    assert!(!plain.resized && plain.patch.is_none() && plain.warning.is_none());
    let told = TextureOutcome::skip("why".to_string());
    assert_eq!(told.warning.as_deref(), Some("why"));
}

#[test]
fn a_shorter_chain_is_reported() {
    let mut settings = Settings::default();
    settings.cap_resolution = 16;
    settings.min_size_floor = 4;
    settings.mip_handling = MipHandling::PreserveCount;
    let mut tex = texture("t", 64, 64, TextureFormat::A8R8G8B8);
    tex.levels = 5;
    let outcome = process_texture(&tex, &settings, &[]);
    assert_eq!(outcome.patch.unwrap().levels, 3);
    assert_eq!(
        outcome.warning.unwrap(),
        "'t': mip count reduced 5 -> 3 (texture now too small for full chain)"
    );
}

fn dictionary() -> ParsedYtd {
    let mut textures = Vec::new();
    for (i, (name, side)) in [("one", 64u16), ("two_logo", 64), ("three", 16)].iter().enumerate() {
        let mut t = texture(name, *side, *side, TextureFormat::A8R8G8B8);
        t.struct_offset = 0x400 + i * 0x90;
        textures.push(t);
    }
    let mut system = vec![0u8; 0x2000];
    system[0x30..0x38].copy_from_slice(&0x5000_0200u64.to_le_bytes());
    system[0x38] = 3;
    for i in 0..3usize {
        let va = 0x5000_0400u64 + i as u64 * 0x90;
        system[0x200 + 8 * i..0x208 + 8 * i].copy_from_slice(&va.to_le_bytes());
        let at = 0x400 + i * 0x90;
        let t: &RawTexture = &textures[i];
        let name = 0x1000 + i * 0x20;
        system[at + 0x28..at + 0x30].copy_from_slice(&(0x5000_0000u64 + name as u64).to_le_bytes());
        system[name..name + t.name.len()].copy_from_slice(t.name.as_bytes());
        system[at + 0x50..at + 0x52].copy_from_slice(&t.width.to_le_bytes());
        system[at + 0x52..at + 0x54].copy_from_slice(&t.height.to_le_bytes());
        system[at + 0x56..at + 0x58].copy_from_slice(&t.stride.to_le_bytes());
        system[at + 0x58..at + 0x5c].copy_from_slice(&t.format.code().to_le_bytes());
        system[at + 0x5d] = t.levels;
    }
    ParsedYtd {
        textures,
        system,
        sys_flags: encode_capacity_flags(0x2000, 1),
        gfx_version_nibble: 3,
    }
}

#[test]
fn a_dictionary_is_resized() {
    let mut settings = Settings::default();
    settings.cap_resolution = 32;
    settings.min_size_floor = 4;
    settings.mip_handling = MipHandling::Strip;
    settings.skip_substrings = "LOGO".to_string();
    let (bytes, stats) = resize_parsed(dictionary(), &settings).unwrap();
    assert_eq!((stats.textures_resized, stats.textures_total), (1, 3));
    assert!(stats.warnings.is_empty());
    let again = parse(&bytes).unwrap();
    let sides: Vec<u16> = again.textures.iter().map(|t| t.width).collect();
    assert_eq!(sides, vec![32, 64, 16]);
    assert_eq!(again.textures[0].pixel_data.len(), 4 * 32 * 32);
    assert_eq!(again.textures[1].pixel_data, vec![128; 4 * 64 * 64]);

    let (_, stats) = resize_ytd_bytes(&bytes, &settings).unwrap();
    assert_eq!((stats.textures_resized, stats.textures_total), (0, 3));
    settings.min_size_floor = u32::MAX;
    assert!(matches!(
        resize_ytd_bytes(&bytes, &settings),
        Err(YtdError::TooLarge)
    ));
    assert!(matches!(
        resize_ytd_bytes(&[], &settings),
        Err(YtdError::TooShort { len: 0 })
    ));
}
