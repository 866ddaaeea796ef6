use static_server::clock::formatted_time;
use static_server::index::{format_size, generate_index, sort_entries, DirEntry};
use static_server::resolve::within_root;

fn entry(name: &str, size: Option<u64>) -> DirEntry {
    DirEntry { name: name.to_string(), size }
}

fn sample() -> Vec<DirEntry> {
    vec![
        entry("zeta.txt", Some(10)),
        entry("docs", None),
        entry("alpha.md", Some(2048)),
        entry("Beta", None),
    ]
}

#[test]
fn directories_first_then_names() {
    let names: Vec<String> = sort_entries(sample()).into_iter().map(|e| e.name).collect();
    assert_eq!(names, ["Beta", "docs", "alpha.md", "zeta.txt"]);
}

#[test]
fn listing_ignores_read_order() {
    let a = generate_index("/files", sample());
    let mut reversed = sample();
    reversed.reverse();
    let b = generate_index("/files", reversed);
    assert_eq!(a.bytes, b.bytes);
    assert_eq!(a.mime_type, "text/html");
    let again = generate_index("/files", sample());
    assert_eq!(a.bytes, again.bytes);
}

#[test]
fn listing_page_text() {
    let page = String::from_utf8(generate_index("/files", sample()).bytes).unwrap();
    let expected = "<!DOCTYPE html>\n<head>\n\t<meta charset=\"UTF-8\">\n\t<title>Index of /files</title>\n\t<style>\n\t\thtml { color-scheme: dark; }\n\t\tspan:nth-child(odd) { background-color: #222; }\n\t\tpre { font-size: 1.8em; }\n\t</style>\n</head>\n<body>\n\t<h3>Index of /files</h3>\n\t<pre>\n<span><a href=\"..\">../</a></span>\n<span><a href=\"/files/Beta\">Beta/</a>    </span>\n<span><a href=\"/files/docs\">docs/</a>    </span>\n<span><a href=\"/files/alpha.md\">alpha.md</a>   2.0 KiB</span>\n<span><a href=\"/files/zeta.txt\">zeta.txt</a>    10   B</span>\n\t</pre>\n</body>\n</html>";
    assert_eq!(page, expected);
}

#[test]
fn root_listing_has_no_parent_link() {
    let page = String::from_utf8(generate_index("/", vec![entry("a", Some(1))]).bytes).unwrap();
    assert!(!page.contains("href=\"..\""));
    assert!(page.contains("<span><a href=\"/a\">a</a>     1   B</span>\n"));
    let empty = String::from_utf8(generate_index("/sub/", vec![]).bytes).unwrap();
    assert!(empty.contains("<pre>\n<span><a href=\"..\">../</a></span>\n\t</pre>"));
}

#[test]
fn sizes() {
    assert_eq!(format_size(0), "    0   B");
    assert_eq!(format_size(1023), " 1023   B");
    assert_eq!(format_size(1024), "  1.0 KiB");
    assert_eq!(format_size(1536), "  1.5 KiB");
    assert_eq!(format_size(1280), "  1.2 KiB");
    assert_eq!(format_size(1792), "  1.8 KiB");
    assert_eq!(format_size(1048575), "1024.0 KiB");
    assert_eq!(format_size(1048576), "  1.0 MiB");
    assert_eq!(format_size(10 * 1048576 + 104858), " 10.1 MiB");
    assert_eq!(format_size(1073741824), "  1.0 GiB");
    assert_eq!(format_size(u64::MAX), "17179869184.0 GiB");
}

#[test]
fn confinement() {
    assert!(within_root("/srv/www", "/srv/www"));
    assert!(within_root("/srv/www", "/srv/www/a/b.txt"));
    assert!(within_root("/srv/www/", "/srv/www/a"));
    assert!(!within_root("/srv/www", "/srv/www2"));
    assert!(!within_root("/srv/www", "/srv"));
    assert!(!within_root("/srv/www", "/etc/passwd"));
    assert!(!within_root("/srv/www", "/srv/www/../etc"));
    assert!(!within_root("/srv/www", "srv/www/a"));
    assert!(within_root("/", "/anything"));
}

#[test]
fn log_time_stamps() {
    assert_eq!(formatted_time(0), "1970-01-01_00:00:00");
    assert_eq!(formatted_time(1700000000), "2023-11-14_22:13:20");
    assert_eq!(formatted_time(86399), "1970-01-01_23:59:59");
}
