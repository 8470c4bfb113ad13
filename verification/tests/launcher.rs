use manifest_sync::archive::entry_output_rel;
use manifest_sync::launcher::{filter_bat_files, get_launch_options, greet, launch_args};
use manifest_sync::remote::{chart_list_url, http_status_ok, i32_to_dec, select_skins,
    skin_folder_name, GithubFile};
use manifest_sync::text::{eq_ignore_case, first_segment_str, leaf_name_str, path_is_wf,
    sort_strings};

#[test]
fn every_offered_launch_option_is_accepted() {
    let options = get_launch_options();
    assert_eq!(options.len(), 7);
    assert_eq!(options[0].id, "default");
    for o in &options {
        assert!(launch_args(&o.id).is_ok());
    }
}

#[test]
fn launch_args_maps_each_option_to_its_flags() {
    assert_eq!(launch_args("default").unwrap(), Vec::<String>::new());
    assert_eq!(launch_args("d3d11").unwrap(), vec!["-force-d3d11".to_string()]);
    assert_eq!(launch_args("d3d12").unwrap(), vec!["-force-d3d12".to_string()]);
    assert_eq!(launch_args("opengl").unwrap(), vec!["-force-glcore".to_string()]);
    assert_eq!(launch_args("vulkan").unwrap(), vec!["-force-vulkan".to_string()]);
    assert_eq!(launch_args("test").unwrap(), vec!["--test-mode".to_string()]);
    assert_eq!(launch_args("edit").unwrap(), vec!["--view-mode".to_string()]);
}

#[test]
fn launch_args_rejects_unknown_options_by_name() {
    let e = launch_args("warp").unwrap_err();
    assert_eq!(e, "未知的启动选项: warp");
}

#[test]
fn greet_names_the_caller() {
    assert_eq!(greet("World"), "Hello, World! You've been greeted from Rust!");
}

#[test]
fn bat_filter_keeps_only_bat_names_in_order() {
    let names = vec![
        "run.bat".to_string(),
        "readme.txt".to_string(),
        "setup.bat".to_string(),
        "bat".to_string(),
    ];
    assert_eq!(filter_bat_files(&names), vec!["run.bat".to_string(), "setup.bat".to_string()]);
}

#[test]
fn skins_are_the_listed_files_with_download_urls() {
    let files = vec![
        GithubFile { name: "Classic.zip".to_string(), download_url: Some("https://example.test/c.zip".to_string()), size: 10 },
        GithubFile { name: "docs".to_string(), download_url: None, size: 0 },
        GithubFile { name: "Neo.zip".to_string(), download_url: Some("https://example.test/n.zip".to_string()), size: 20 },
    ];
    let skins = select_skins(files);
    assert_eq!(skins.len(), 2);
    assert_eq!(skins[0].name, "Classic.zip");
    assert_eq!(skins[0].download_url, "https://example.test/c.zip");
    assert_eq!(skins[1].name, "Neo.zip");
    assert_eq!(skins[1].size, 20);
}

#[test]
fn chart_list_url_encodes_the_search_text() {
    let url = chart_list_url("snow drop", 1, 2);
    assert_eq!(
        url,
        "https://majdata.net/api3/api/maichart/list?sort=likep&page=2&search=snow%20drop"
    );
}

#[test]
fn chart_list_url_falls_back_to_default_sort() {
    let url = chart_list_url("", 0, 1);
    assert_eq!(url, "https://majdata.net/api3/api/maichart/list?sort=&page=1&search=");
    let url = chart_list_url("", 9, 1);
    assert_eq!(url, "https://majdata.net/api3/api/maichart/list?sort=&page=1&search=");
}

#[test]
fn decimal_formatting_handles_signs_and_zero() {
    assert_eq!(i32_to_dec(0), "0");
    assert_eq!(i32_to_dec(42), "42");
    assert_eq!(i32_to_dec(-123), "-123");
    assert_eq!(i32_to_dec(i32::MIN), "-2147483648");
}

#[test]
fn status_codes_in_the_2xx_range_are_success() {
    assert!(http_status_ok(200));
    assert!(http_status_ok(204));
    assert!(http_status_ok(299));
    assert!(!http_status_ok(199));
    assert!(!http_status_ok(301));
    assert!(!http_status_ok(404));
}

#[test]
fn skin_folder_drops_trailing_zip_suffixes() {
    assert_eq!(skin_folder_name("Classic.zip"), "Classic");
    assert_eq!(skin_folder_name("Classic"), "Classic");
    assert_eq!(skin_folder_name("a.zip.zip"), "a");
    assert_eq!(skin_folder_name("zip.of.zips"), "zip.of.zips");
}

#[test]
fn archive_entries_lose_the_common_root_folder() {
    assert_eq!(entry_output_rel("Build-master/data/a.txt", "Build-master"), "data/a.txt");
    assert_eq!(entry_output_rel("other/data/a.txt", "Build-master"), "other/data/a.txt");
    assert_eq!(entry_output_rel("Build-master", "Build-master"), "Build-master");
}

#[test]
fn path_segments_split_as_documented() {
    assert_eq!(first_segment_str("charts/song/a.mp3"), "charts");
    assert_eq!(first_segment_str("plain.txt"), "plain.txt");
    assert_eq!(leaf_name_str("charts/song/a.mp3"), "a.mp3");
    assert_eq!(leaf_name_str("plain.txt"), "plain.txt");
}

#[test]
fn path_validity_matches_the_manifest_invariant() {
    assert!(path_is_wf("a.txt"));
    assert!(path_is_wf("charts/a.txt"));
    assert!(path_is_wf("a..b/ok"));
    assert!(!path_is_wf(""));
    assert!(!path_is_wf("/abs"));
    assert!(!path_is_wf("trailing/"));
    assert!(!path_is_wf("a//b"));
    assert!(!path_is_wf(".."));
    assert!(!path_is_wf("../up"));
    assert!(!path_is_wf("a/../b"));
    assert!(!path_is_wf("a/.."));
    assert!(!path_is_wf("back\\slash"));
    assert!(!path_is_wf("quo\"te"));
}

#[test]
fn digest_comparison_folds_ascii_case_only() {
    assert!(eq_ignore_case("9F2A", "9f2a"));
    assert!(eq_ignore_case("", ""));
    assert!(!eq_ignore_case("9f2a", "9f2b"));
    assert!(!eq_ignore_case("9f2a", "9f2aa"));
}

#[test]
fn sorting_orders_names_and_keeps_them_all() {
    let names = vec![
        "charts".to_string(),
        "Assets".to_string(),
        "a.txt".to_string(),
        "charts".to_string(),
        "b".to_string(),
    ];
    let sorted = sort_strings(&names);
    assert_eq!(
        sorted,
        vec![
            "Assets".to_string(),
            "a.txt".to_string(),
            "b".to_string(),
            "charts".to_string(),
            "charts".to_string(),
        ]
    );
}
