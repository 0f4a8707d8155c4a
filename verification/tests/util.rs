use find_core::util::{
    contains_ignore_case, contains_text, default_exclusions, default_exclusions_for, default_roots,
    drive_roots, extension_of, find_ignore_case, human_size, is_excluded, is_image_ext, is_texty,
    parse_size, path_contains_segment, thousands, Category, ExclusionMatcher,
};

#[test]
fn test_contains_ignore_case() {
    assert!(contains_ignore_case("Hello World.TXT", "world"));
    assert!(contains_ignore_case("abc", ""));
    assert!(!contains_ignore_case("abc", "abcd"));
    assert!(contains_ignore_case("ABC", "abc"));
}

#[test]
fn test_parse_size() {
    assert_eq!(parse_size("10mb"), Some(10 * 1024 * 1024));
    assert_eq!(parse_size("1.5kb"), Some(1536));
    assert_eq!(parse_size("100"), Some(100));
    assert_eq!(parse_size("2g"), Some(2 * 1024 * 1024 * 1024));
    assert_eq!(parse_size("abc"), None);
}

#[test]
fn test_extension() {
    assert_eq!(extension_of("foo.txt"), Some("txt"));
    assert_eq!(extension_of("foo"), None);
    assert_eq!(extension_of(".hidden"), None);
    assert_eq!(extension_of("a.tar.gz"), Some("gz"));
}

#[test]
fn test_category() {
    assert!(Category::Images.matches("photo.JPG", false));
    assert!(!Category::Images.matches("photo.jpg", true));
    assert!(Category::Folders.matches("stuff", true));
    assert!(Category::All.matches("anything", false));
}

#[test]
fn test_thousands() {
    assert_eq!(thousands(1234567), "1,234,567");
    assert_eq!(thousands(12), "12");
}

#[test]
fn test_exclusion_matcher() {
    let patterns: Vec<String> = vec![".git".into(), "node_modules".into(), "/proc".into()];
    let m = ExclusionMatcher::new(&patterns);
    // Component patterns match whole components only.
    assert!(m.matches("/home/me/proj/.git/config"));
    assert!(m.matches("/home/me/app/node_modules"));
    assert!(m.matches("/home/me/app/NODE_MODULES/x.js"));
    assert!(!m.matches("/home/me/proj/.github/workflows/ci.yml"));
    assert!(!m.matches("/home/me/proj/.gitignore"));
    // Separator patterns are path substrings.
    assert!(m.matches("/proc/cpuinfo"));
    assert!(!m.matches("/home/me/process.txt"));
}

/// Sizes as floating point numbers show them.
fn float_size(bytes: u64) -> String {
    let units = ["B", "KB", "MB", "GB", "TB", "PB"];
    if bytes < 1024 {
        return format!("{bytes} B");
    }
    let mut value = bytes as f64;
    let mut unit = 0;
    while value >= 1024.0 && unit < units.len() - 1 {
        value /= 1024.0;
        unit += 1;
    }
    if value >= 100.0 {
        format!("{value:.0} {}", units[unit])
    } else {
        format!("{value:.1} {}", units[unit])
    }
}

#[test]
fn sizes_are_shown_as_floating_point_would() {
    assert_eq!(human_size(0), "0 B");
    assert_eq!(human_size(1023), "1023 B");
    assert_eq!(human_size(1536), "1.5 KB");
    assert_eq!(human_size(150 * 1024), "150 KB");
    let mut n: u64 = 1;
    for i in 0..20_000u64 {
        n = n.wrapping_mul(6364136223846793005).wrapping_add(1442695040888963407);
        let sample = n >> (i % 64);
        assert_eq!(human_size(sample), float_size(sample), "{sample}");
    }
    for shift in 0..64 {
        for d in 0..3 {
            let around = (1u64 << shift).wrapping_add(d).wrapping_sub(1);
            assert_eq!(human_size(around), float_size(around), "{around}");
        }
    }
    for k in 0..4096u64 {
        // Halfway between two tenths.
        let half = 1024 * 1024 + k * 1024 * 1024 / 20;
        assert_eq!(human_size(half), float_size(half), "{half}");
    }
    assert_eq!(human_size(u64::MAX), float_size(u64::MAX));
}

/// Sizes as floating point numbers read them.
fn float_parse(s: &str) -> Option<u64> {
    let s = s.trim().to_ascii_lowercase();
    let split = s.find(|c: char| c.is_ascii_alphabetic()).unwrap_or(s.len());
    let (num, unit) = s.split_at(split);
    let num: f64 = num.trim().parse().ok()?;
    let mult: u64 = match unit.trim() {
        "" | "b" => 1,
        "k" | "kb" => 1 << 10,
        "m" | "mb" => 1 << 20,
        "g" | "gb" => 1 << 30,
        "t" | "tb" => 1u64 << 40,
        _ => return None,
    };
    Some((num * mult as f64) as u64)
}

#[test]
fn sizes_are_read_as_floating_point_would() {
    for text in [
        "", " ", "5", "+5", "-5", "-0", "5.", ".5", ".", "+", "-", "5.5.5", "1e3", "1e3kb", "inf",
        "nan", " 7 kb ", "7 k b", "0.1", "0.1kb", "0.3mb", "1.1gb", "2.675tb", "1,5mb", "007",
        "18446744073709551615", "18446744073709551616", "99999999999999999999999999", "9999tb",
        "16777216tb", "16777215.999tb", "0.0000000000000001tb", "1.7976931348623157gb",
        "123456789.123456789mb", "4503599627370497.5", "9007199254740993", "9007199254740993kb",
        "9007199254740991.5", "1.0000000000000002", "1.00000000000000011102230246251565404kb",
        "10 MB", "10Mb", "3\u{a0}kb", "\u{2003}4", "1_000", "0x10", "\u{661}",
    ] {
        assert_eq!(parse_size(text), float_parse(text), "{text:?}");
    }
    let mut n: u64 = 9;
    for _ in 0..20_000 {
        n = n.wrapping_mul(6364136223846793005).wrapping_add(1442695040888963407);
        let unit = ["", "b", "k", "kb", "mb", "g", "tb"][(n >> 3) as usize % 7];
        let text = format!("{}.{}{unit}", (n >> 20) % 100_000, (n >> 7) % 1_000_000_007);
        assert_eq!(parse_size(&text), float_parse(&text), "{text}");
    }
}

#[test]
fn numbers_are_grouped_by_thousands() {
    assert_eq!(thousands(0), "0");
    assert_eq!(thousands(999), "999");
    assert_eq!(thousands(1000), "1,000");
    assert_eq!(thousands(usize::MAX).replace(',', ""), usize::MAX.to_string());
}

#[test]
fn matching_ignores_ascii_case_only() {
    assert!(contains_ignore_case("STRASSE", "strasse"));
    assert!(!contains_ignore_case("\u{c4}RGER", "\u{e4}rger"));
    assert!(contains_ignore_case("\u{c4}RGER", "\u{c4}rger"));
    assert_eq!(find_ignore_case("a hotDOG dog", "Dog"), Some(5));
    assert_eq!(find_ignore_case("\u{e9}dog", "DOG"), Some(2));
    assert_eq!(find_ignore_case("cat", "dog"), None);
    assert_eq!(find_ignore_case("cat", ""), Some(0));
    assert!(contains_text("abc", "bc"));
    assert!(!contains_text("abc", "BC"));
}

#[test]
fn extensions_are_read_from_the_last_dot() {
    assert_eq!(extension_of("a."), None);
    assert_eq!(extension_of(""), None);
    assert_eq!(extension_of("\u{e9}.T\u{e9}x"), Some("T\u{e9}x"));
}

#[test]
fn categories_have_labels_and_extensions() {
    let labels: Vec<&str> = Category::ALL.iter().map(|c| c.label()).collect();
    assert_eq!(
        labels,
        vec![
            "All", "Folders", "Files", "Documents", "Images", "Audio", "Video", "Archives", "Code",
            "Executables"
        ]
    );
    assert!(Category::Documents.extensions().contains(&"pdf"));
    assert!(Category::Folders.extensions().is_empty());
    assert!(Category::Files.matches("x", false));
    assert!(!Category::Files.matches("x", true));
    assert!(!Category::Code.matches("Makefile", false));
    assert_eq!(Category::default(), Category::All);
}

#[test]
fn texts_and_images_are_told_by_name() {
    assert!(is_texty("Makefile"));
    assert!(is_texty("a.RS"));
    assert!(!is_texty("a.exe"));
    assert!(is_image_ext("a.PNG"));
    assert!(!is_image_ext("a.psd"));
}

#[test]
fn default_roots_are_the_home_directory_or_the_drives() {
    assert_eq!(default_roots(Some("/home/me".to_string())), vec!["/home/me"]);
    assert_eq!(default_roots(None), vec!["/"]);
    assert_eq!(drive_roots(&[false, false, true, true]), vec!["C:/", "D:/"]);
}

#[test]
fn default_exclusions_hide_noise() {
    let list = default_exclusions();
    assert_eq!(list, default_exclusions_for(std::path::is_separator('\\')));
    assert!(is_excluded("/home/me/app/node_modules/x.js", &list));
    assert!(is_excluded("/home/me/p/__pycache__", &list));
    assert!(!is_excluded("/home/me/p/.github/workflows/ci.yml", &list));
    assert_ne!(default_exclusions_for(true), default_exclusions_for(false));
}

#[test]
fn exclusions_are_trimmed_and_blank_ones_ignored() {
    let list = vec!["  ".to_string(), " tmp ".to_string()];
    assert!(is_excluded("/a/TMP/b", &list));
    assert!(!is_excluded("/a/b", &list));
    assert!(!is_excluded("/a/b", &[]));
}

#[test]
fn slashes_in_exclusions_match_either_way() {
    assert!(path_contains_segment("C:\\Windows\\Temp\\x", "windows/temp"));
    assert!(path_contains_segment("/proc", "/proc"));
    assert!(!path_contains_segment("/process", "/proc"));
    assert!(!path_contains_segment("/a", ""));
    // A later place may fit where an earlier one does not.
    assert!(path_contains_segment("/ab/a/x", "/a"));
}

#[test]
fn patterns_with_slashes_name_whole_components() {
    assert!(path_contains_segment("/home/me/anaconda3/envs/x", "anaconda3/envs"));
    assert!(!path_contains_segment("/home/me/myanaconda3/envs/x", "anaconda3/envs"));
    assert!(!path_contains_segment("/home/me/anaconda3/envs2", "anaconda3/envs"));
    assert!(path_contains_segment("anaconda3/envs", "anaconda3/envs"));
    // The first place where it stands is not at a boundary, the second is.
    assert!(path_contains_segment("/xa/b/a/b", "a/b"));
    let m = ExclusionMatcher::new(&["anaconda3/envs".to_string()]);
    assert!(!m.matches("/home/me/myanaconda3/envs/x"));
    assert!(m.matches("/home/me/anaconda3/envs/x"));
}
