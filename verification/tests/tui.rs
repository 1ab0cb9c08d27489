use npmpink::header::Header;
use npmpink::item::PackageItemDisplay;
use npmpink::item_formatter::{display_for, source_label, PackageItemFormatter};
use npmpink::package::Package;
use npmpink::select::{
    format_picker_lines, parse_selected_index, select_by_indices, try_parse_selected_index,
    FzfPicker, FzfPickerConfig, PickConfig, PickerMode,
};
use npmpink::source::Source;

#[test]
fn test_add_label() {
    let header = Header::new().add_label("hello".to_string());
    assert_eq!(header.labels, vec!["hello".to_string()]);
}

#[test]
fn test_set_labels() {
    let labels = vec!["label 1".to_string(), "label2".to_string()];
    let header = Header::new().set_labels(labels);
    assert_eq!(header.labels[0], "label 1".to_string());
    assert_eq!(header.labels[1], "label2".to_string());
}

#[test]
fn test_source_label_is_path_stem() {
    let s = Source::new("/home/user/my-packages".to_string());
    assert_eq!(source_label(&s), Some("my-packages".to_string()));
    let with_ext = Source::new("/home/user/archive.d".to_string());
    assert_eq!(source_label(&with_ext), Some("archive".to_string()));
}

#[test]
fn test_display_for_formatter() {
    let pkg = Package::new("lib-a".into(), "/src/lib-a".into(), "7".into());
    let source = Source::new("/src".to_string());
    let f = PackageItemFormatter::new(pkg, source.clone());
    let d = display_for(&f);
    assert_eq!(d.title, "lib-a".to_string());
    assert_eq!(d.source_label, "src".to_string());
    assert_eq!(d.source_id, source.id);
}

#[test]
fn test_item_display_line() {
    let pkg = Package::new("lib-a".into(), "/src/lib-a".into(), "7".into());
    let source = Source::new("/src".to_string());
    let item = PackageItemDisplay::new(PackageItemFormatter::new(pkg, source));
    assert_eq!(item.display_line(), "lib-a  src".to_string());
}

#[test]
fn test_fzf_picker_new() {
    let p = FzfPicker::new(Some(FzfPickerConfig {}));
    assert_eq!(p.config, FzfPickerConfig {});
    let _ = FzfPicker::new(None);
    let c = PickConfig::default();
    assert!(matches!(c.mode, PickerMode::Fzf));
}

#[test]
fn test_format_picker_lines() {
    let lines = format_picker_lines(&vec!["alpha".to_string(), "beta".to_string()]);
    assert_eq!(lines, vec!["0 alpha".to_string(), "1 beta".to_string()]);
}

#[test]
fn test_parse_selected_index() {
    let picked = parse_selected_index("0 alpha\n2 gamma".to_string());
    assert_eq!(picked, vec![0usize, 2usize]);
}

#[test]
fn test_parse_selected_index_rejects_garbage() {
    assert!(try_parse_selected_index("alpha").is_none());
    assert!(try_parse_selected_index("1 ok\n\n2 bad").is_none());
    assert_eq!(try_parse_selected_index("  7 spaced"), Some(vec![7usize]));
}

#[test]
fn test_select_by_indices() {
    let pkg = |n: &str| Package::new(n.into(), format!("/s/{}", n), "1".into());
    let src = Source::new("/s".to_string());
    let items = vec![
        PackageItemDisplay::new(PackageItemFormatter::new(pkg("a"), src.clone())),
        PackageItemDisplay::new(PackageItemFormatter::new(pkg("b"), src.clone())),
        PackageItemDisplay::new(PackageItemFormatter::new(pkg("c"), src.clone())),
    ];
    let picked = select_by_indices(&items, &vec![2usize, 0usize, 9usize]);
    assert_eq!(picked.len(), 2);
    assert_eq!(picked[0].raw.inner.name, "c".to_string());
    assert_eq!(picked[1].raw.inner.name, "a".to_string());
}
