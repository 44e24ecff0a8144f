use dircontents::{
    classify, console_width, decimal_string, format_size, header_line, human_readable_filesize,
    render, render_directory, right_pad, select, width_or_default, DirectoryEntry, DisplayOptions,
    EntryKind, RawMetadata, RenderLine, SizeBase, SortOrder, Style,
};

fn file(name: &str) -> DirectoryEntry {
    let meta = RawMetadata { is_symlink: false, is_dir: false, mode: 0o644, len: 10 };
    DirectoryEntry::resolve(name.to_string(), format!("/d/{}", name), Some(meta))
}

fn sized(name: &str, len: u64) -> DirectoryEntry {
    let meta = RawMetadata { is_symlink: false, is_dir: false, mode: 0o644, len };
    DirectoryEntry::resolve(name.to_string(), format!("/d/{}", name), Some(meta))
}

fn missing(name: &str) -> DirectoryEntry {
    DirectoryEntry::resolve(name.to_string(), format!("/d/{}", name), None)
}

fn options(show_hidden: bool, sort: SortOrder, show_size: bool) -> DisplayOptions {
    DisplayOptions {
        show_hidden,
        sort,
        show_size,
        human_readable: false,
        size_base: SizeBase::Base1024,
    }
}

fn names(entries: &[DirectoryEntry]) -> Vec<String> {
    entries.iter().map(|e| e.display_name.clone()).collect()
}

fn texts(line: &RenderLine) -> Vec<String> {
    line.segments.iter().map(|s| s.text.clone()).collect()
}

fn snapshot() -> Vec<DirectoryEntry> {
    vec![file("apple"), file(".hidden"), file("Zebra"), file("beta")]
}

#[test]
fn format_size_examples() {
    assert_eq!(format_size(0, true, 1024), "0.00 B");
    assert_eq!(format_size(1024, true, 1024), "1.00 kB");
    assert_eq!(format_size(1000, true, 1000), "1.00 kB");
    assert_eq!(format_size(500, false, 1024), "500 B");
    assert_eq!(format_size(500, false, 1000), "500 B");
}

#[test]
fn format_size_rounding_and_units() {
    assert_eq!(format_size(1536, true, 1024), "1.50 kB");
    assert_eq!(format_size(4240, true, 1024), "4.14 kB");
    assert_eq!(format_size(1023, true, 1024), "1023.00 B");
    assert_eq!(format_size(1048575, true, 1024), "1024.00 kB");
    assert_eq!(format_size(1_500_000, true, 1000), "1.50 MB");
    assert_eq!(format_size(5, true, 1000), "5.00 B");
}

#[test]
fn format_size_largest_values() {
    assert_eq!(format_size(u64::MAX, true, 1024), "16.00 EB");
    assert_eq!(format_size(u64::MAX, true, 1000), "18.45 EB");
    assert_eq!(format_size(u64::MAX, false, 1024), "18446744073709551615 B");
}

#[test]
fn human_readable_filesize_bases() {
    assert_eq!(human_readable_filesize(2048, false), "2.00 kB");
    assert_eq!(human_readable_filesize(2000, true), "2.00 kB");
    assert_eq!(human_readable_filesize(0, true), "0.00 B");
}

#[test]
fn decimal_string_digits() {
    assert_eq!(decimal_string(0), "0");
    assert_eq!(decimal_string(7), "7");
    assert_eq!(decimal_string(1234567890), "1234567890");
}

#[test]
fn right_pad_widths() {
    assert_eq!(right_pad("ab", 5), "ab   ");
    assert_eq!(right_pad("abcdef", 3), "abcdef");
    assert_eq!(right_pad("", 2), "  ");
    assert_eq!(right_pad("héllo", 7), "héllo  ");
}

#[test]
fn select_drops_hidden_names() {
    let r = select(snapshot(), &options(false, SortOrder::Natural, false));
    assert_eq!(names(&r), vec!["apple", "Zebra", "beta"]);
    assert!(r.iter().all(|e| !e.display_name.starts_with('.')));
}

#[test]
fn select_keeps_everything_when_hidden_shown() {
    let r = select(snapshot(), &options(true, SortOrder::Natural, false));
    assert_eq!(names(&r), vec!["apple", ".hidden", "Zebra", "beta"]);
    let mut sorted = names(&select(snapshot(), &options(true, SortOrder::Lexicographic, false)));
    sorted.sort();
    let mut all = names(&snapshot());
    all.sort();
    assert_eq!(sorted, all);
}

#[test]
fn select_sorts_by_bytes() {
    let r = select(snapshot(), &options(true, SortOrder::Lexicographic, false));
    assert_eq!(names(&r), vec![".hidden", "Zebra", "apple", "beta"]);
}

#[test]
fn select_reversed_is_reverse_of_sorted() {
    let asc = names(&select(snapshot(), &options(false, SortOrder::Lexicographic, false)));
    let mut desc =
        names(&select(snapshot(), &options(false, SortOrder::LexicographicReversed, false)));
    assert_eq!(desc, vec!["beta", "apple", "Zebra"]);
    desc.reverse();
    assert_eq!(asc, desc);
}

#[test]
fn select_sorts_prefixes_first() {
    let entries = vec![file("ab"), file("a"), file("abc"), file("b")];
    let r = select(entries, &options(false, SortOrder::Lexicographic, false));
    assert_eq!(names(&r), vec!["a", "ab", "abc", "b"]);
}

#[test]
fn end_to_end_sorted_single_line() {
    let lines = render_directory("/d", snapshot(), &options(false, SortOrder::Lexicographic, false), 200);
    assert_eq!(lines.len(), 3);
    assert_eq!(texts(&lines[0]), vec!["➥ /d"]);
    assert_eq!(lines[0].segments[0].style, Style::Yellow);
    assert_eq!(texts(&lines[1]), vec!["Zebra  ", "apple  ", "beta  "]);
    assert!(lines[2].segments.is_empty());
}

#[test]
fn empty_directory_gives_header_and_blank() {
    let lines = render_directory("/empty", Vec::new(), &options(false, SortOrder::Lexicographic, true), 80);
    assert_eq!(lines.len(), 2);
    assert_eq!(texts(&lines[0]), vec!["➥ /empty"]);
    assert!(lines[1].segments.is_empty());
}

#[test]
fn missing_entry_is_red_without_size() {
    let entries = vec![missing("gone"), sized("kept", 500)];
    let lines = render(&entries, &options(false, SortOrder::Natural, true), 80);
    assert_eq!(lines.len(), 2);
    assert_eq!(lines[0].segments.len(), 1);
    assert_eq!(lines[0].segments[0].style, Style::BoldRed);
    assert_eq!(lines[0].segments[0].text, "gone  ");
    assert_eq!(texts(&lines[1]), vec!["500 B     ", "kept  "]);
    assert_eq!(lines[1].segments[0].style, Style::White);
}

#[test]
fn size_lines_human_readable() {
    let entries = vec![sized("big", 1536)];
    let mut o = options(false, SortOrder::Natural, true);
    o.human_readable = true;
    let lines = render(&entries, &o, 80);
    assert_eq!(texts(&lines[0]), vec!["1.50 kB   ", "big  "]);
    o.size_base = SizeBase::Base1000;
    let lines = render(&entries, &o, 80);
    assert_eq!(texts(&lines[0]), vec!["1.54 kB   ", "big  "]);
}

#[test]
fn columns_wrap_at_terminal_width() {
    let entries: Vec<DirectoryEntry> =
        ["aaaa", "bb", "c", "dddd", "e"].iter().map(|n| file(n)).collect();
    // column width 6, so 2 per line on a width of 13
    let lines = render(&entries, &options(false, SortOrder::Natural, false), 13);
    assert_eq!(lines.len(), 3);
    assert_eq!(texts(&lines[0]), vec!["aaaa  ", "bb    "]);
    assert_eq!(texts(&lines[1]), vec!["c     ", "dddd  "]);
    assert_eq!(texts(&lines[2]), vec!["e     "]);
    for line in &lines {
        assert!(line.segments.len() <= 2);
        let text: String = texts(line).concat();
        assert!(text.trim_end().chars().count() <= 13);
    }
}

#[test]
fn narrow_terminal_gives_one_per_line() {
    let entries = vec![file("longname"), file("x")];
    let lines = render(&entries, &options(false, SortOrder::Natural, false), 4);
    assert_eq!(lines.len(), 2);
    assert_eq!(texts(&lines[0]), vec!["longname  "]);
    assert_eq!(texts(&lines[1]), vec!["x         "]);
}

#[test]
fn rendering_twice_is_identical() {
    let o = options(false, SortOrder::Lexicographic, false);
    let a = render_directory("/d", snapshot(), &o, 20);
    let b = render_directory("/d", snapshot(), &o, 20);
    let flat = |ls: &Vec<RenderLine>| -> Vec<(Vec<String>, Vec<Style>)> {
        ls.iter().map(|l| (texts(l), l.segments.iter().map(|s| s.style).collect())).collect()
    };
    assert_eq!(flat(&a), flat(&b));
}

#[test]
fn styles_by_kind() {
    let dir = DirectoryEntry::resolve("d".to_string(), "/d/d".to_string(),
        Some(RawMetadata { is_symlink: false, is_dir: true, mode: 0o755, len: 4096 }));
    let link = DirectoryEntry::resolve("l".to_string(), "/d/l".to_string(),
        Some(RawMetadata { is_symlink: true, is_dir: true, mode: 0o777, len: 4096 }));
    let exe = DirectoryEntry::resolve("x".to_string(), "/d/x".to_string(),
        Some(RawMetadata { is_symlink: false, is_dir: false, mode: 0o100, len: 1 }));
    assert_eq!(dir.kind, EntryKind::Directory);
    assert_eq!(link.kind, EntryKind::Symlink);
    assert_eq!(exe.kind, EntryKind::RegularFile);
    assert!(exe.is_executable);
    assert_eq!(classify(&dir), Style::BoldBlue);
    assert_eq!(classify(&link), Style::Cyan);
    assert_eq!(classify(&exe), Style::Green);
    assert_eq!(classify(&file("plain")), Style::White);
    assert_eq!(classify(&missing("m")), Style::BoldRed);
    assert_eq!(missing("m").size_bytes, None);
    assert_eq!(file("f").size_bytes, Some(10));
}

#[test]
fn options_from_flags() {
    let o = DisplayOptions::from_flags(true, true, true, false, false, true);
    assert!(o.show_hidden);
    assert_eq!(o.sort, SortOrder::Natural);
    assert_eq!(o.size_base, SizeBase::Base1000);
    let o = DisplayOptions::from_flags(false, false, true, true, true, false);
    assert_eq!(o.sort, SortOrder::LexicographicReversed);
    assert!(o.show_size && o.human_readable);
    assert_eq!(o.size_base, SizeBase::Base1024);
    assert_eq!(SizeBase::Base1000.value(), 1000);
}

#[test]
fn width_fallback() {
    assert_eq!(width_or_default(None), 50);
    assert_eq!(width_or_default(Some(132)), 132);
    assert!(console_width() <= u16::MAX as usize);
}

#[test]
fn header_line_text() {
    let h = header_line("/tmp/x");
    assert_eq!(texts(&h), vec!["➥ /tmp/x"]);
}
