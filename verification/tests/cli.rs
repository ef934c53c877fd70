use md_editor::cli::{
    desktop_entry_contents, icon_renditions, icon_sizes, keep_encoded_renditions, parse_cli_args,
    CliAction,
};

#[test]
fn test_parse_cli_args() {
    assert_eq!(parse_cli_args(&["md-editor".to_string()]), CliAction::RunApp);

    assert_eq!(
        parse_cli_args(&["md-editor".to_string(), "--install".to_string()]),
        CliAction::Install
    );
    assert_eq!(
        parse_cli_args(&["md-editor".to_string(), "--install-desktop".to_string()]),
        CliAction::Install
    );

    assert_eq!(
        parse_cli_args(&["md-editor".to_string(), "--uninstall".to_string()]),
        CliAction::Uninstall
    );
    assert_eq!(
        parse_cli_args(&["md-editor".to_string(), "--uninstall-desktop".to_string()]),
        CliAction::Uninstall
    );

    assert_eq!(
        parse_cli_args(&["md-editor".to_string(), "notes.md".to_string()]),
        CliAction::OpenPath("notes.md".to_string())
    );
    assert_eq!(
        parse_cli_args(&["md-editor".to_string(), "/home/user/vault".to_string()]),
        CliAction::OpenPath("/home/user/vault".to_string())
    );

    assert_eq!(
        parse_cli_args(&["md-editor".to_string(), "--verbose".to_string()]),
        CliAction::RunApp
    );
}

#[test]
fn no_arguments_and_extra_arguments() {
    assert_eq!(parse_cli_args(&[]), CliAction::RunApp);
    assert_eq!(
        parse_cli_args(&["md-editor".to_string(), "".to_string()]),
        CliAction::OpenPath(String::new())
    );
    assert_eq!(
        parse_cli_args(&[
            "md-editor".to_string(),
            "a.md".to_string(),
            "--install".to_string()
        ]),
        CliAction::OpenPath("a.md".to_string())
    );
}

#[test]
fn desktop_entry_names_the_binary_and_icon() {
    let text = desktop_entry_contents("/usr/bin/md-editor", "/home/u/.local/share/icons/md-editor.png");
    assert_eq!(
        text,
        "[Desktop Entry]\nName=MD Editor\nComment=Native desktop markdown workspace\nExec=/usr/bin/md-editor %F\nIcon=/home/u/.local/share/icons/md-editor.png\nTerminal=false\nType=Application\nMimeType=text/markdown;application/pdf;\nCategories=Office;WordProcessor;Utility;\nStartupWMClass=md-editor\n"
    );
    assert_eq!(icon_sizes(), vec![16, 32, 48, 64, 128, 256, 512]);
}

fn tiny_png() -> Vec<u8> {
    let pixels = image::RgbaImage::from_pixel(4, 4, image::Rgba([200, 40, 40, 255]));
    let mut bytes = Vec::new();
    image::DynamicImage::ImageRgba8(pixels)
        .write_to(&mut std::io::Cursor::new(&mut bytes), image::ImageFormat::Png)
        .unwrap();
    bytes
}

#[test]
fn icon_renditions_cover_every_installed_size() {
    let renditions = icon_renditions(&tiny_png());
    let sizes: Vec<u32> = renditions.iter().map(|r| r.size).collect();
    assert_eq!(sizes, icon_sizes());
    for rendition in &renditions {
        let decoded = image::load_from_memory(&rendition.png).unwrap();
        assert_eq!(decoded.width(), rendition.size);
        assert_eq!(decoded.height(), rendition.size);
    }
}

#[test]
fn an_icon_that_does_not_decode_gives_no_renditions() {
    assert!(icon_renditions(b"not an image").is_empty());
    assert!(icon_renditions(&[]).is_empty());
}

#[test]
fn only_sizes_whose_encoding_succeeded_are_kept() {
    let sizes = vec![16, 32, 48];
    let encoded = vec![Some(vec![1u8, 2]), None, Some(vec![3u8])];
    let kept = keep_encoded_renditions(&sizes, &encoded);
    let pairs: Vec<(u32, Vec<u8>)> = kept.iter().map(|r| (r.size, r.png.clone())).collect();
    assert_eq!(pairs, vec![(16, vec![1u8, 2]), (48, vec![3u8])]);
    assert!(keep_encoded_renditions(&sizes, &vec![None, None, None]).is_empty());
}
