use apc::render::{format_directory_tree, format_file_contents, format_project_context,
    sort_strings};
use apc::sniff::is_binary;
use apc::tree::{collect_file_info, ProjectContext};

fn sample_context() -> ProjectContext {
    // root: a.txt (text), sub/ with c.txt; b.bin is rejected by the sniffer
    let mut ctx = ProjectContext::new();
    let a = collect_file_info("a.txt".to_string(), b"0123456789".to_vec(), 1_048_576, false)
        .unwrap();
    ctx.add_file("a.txt", a.content);
    let b = collect_file_info("b.bin".to_string(), b"ab\x00cd".to_vec(), 1_048_576, false);
    assert!(b.is_none());
    ctx.add_directory("sub");
    let c = collect_file_info("sub/c.txt".to_string(), b"hello\n".to_vec(), 1_048_576, false)
        .unwrap();
    ctx.add_file("sub/c.txt", c.content);
    ctx
}

#[test]
fn nul_byte_in_sample_is_binary() {
    assert!(is_binary(b"ab\x00cd", 1024));
    assert!(!is_binary(b"plain text", 1024));
    assert!(!is_binary(b"", 1024));
}

#[test]
fn nul_byte_beyond_sample_is_not_seen() {
    let mut data = vec![b'a'; 1024];
    data.push(0);
    assert!(!is_binary(&data, 1024));
    let mut data2 = vec![b'a'; 1023];
    data2.push(0);
    assert!(is_binary(&data2, 1024));
}

#[test]
fn file_at_size_limit_included_one_over_excluded() {
    let at = collect_file_info("f".to_string(), vec![b'x'; 5], 5, false);
    assert!(at.is_some());
    assert_eq!(at.unwrap().content, "xxxxx");
    let over = collect_file_info("f".to_string(), vec![b'x'; 6], 5, false);
    assert!(over.is_none());
}

#[test]
fn binary_rejected_unless_inclusion_enabled() {
    let rejected = collect_file_info("f".to_string(), b"a\x00b".to_vec(), 100, false);
    assert!(rejected.is_none());
    // a NUL byte is still valid text encoding, so the content is kept
    let kept = collect_file_info("f".to_string(), b"a\x00b".to_vec(), 100, true);
    assert_eq!(kept.unwrap().content, "a\x00b");
}

#[test]
fn undecodable_content_becomes_placeholder() {
    let with = collect_file_info("f".to_string(), vec![0xff, 0xfe, 0x00], 100, true);
    assert_eq!(with.unwrap().content, "[Binary content]");
    let without = collect_file_info("f".to_string(), vec![0xff, 0xfe], 100, false);
    assert!(without.is_none());
}

#[test]
fn tree_rendering_matches_expected_layout() {
    let ctx = sample_context();
    let tree = format_directory_tree(&ctx);
    let expected = "./\n    \u{251c}\u{2500}\u{2500} sub/\n    \u{2502}       \u{2514}\u{2500}\u{2500} c.txt\n    \u{2514}\u{2500}\u{2500} a.txt\n";
    assert_eq!(tree, expected);
}

#[test]
fn contents_sorted_with_headers_and_single_trailing_newline() {
    let ctx = sample_context();
    let contents = format_file_contents(&ctx);
    let expected = "\n--- a.txt ---\n0123456789\n\n--- sub/c.txt ---\nhello\n";
    assert_eq!(contents, expected);
}

#[test]
fn full_output_combines_tree_and_contents() {
    let ctx = sample_context();
    let out = format_project_context(&ctx);
    let expected = format!(
        "Directory Structure:\n{}\nFile Contents:{}",
        format_directory_tree(&ctx),
        format_file_contents(&ctx)
    );
    assert_eq!(out, expected);
}

#[test]
fn structure_only_view_has_no_contents_section() {
    let ctx = sample_context();
    let tree = format_directory_tree(&ctx);
    assert!(!tree.contains("File Contents:"));
    assert!(!tree.contains("0123456789"));
    assert!(!tree.contains("hello"));
}

#[test]
fn rendering_invariant_under_accumulation_order() {
    let mut c1 = ProjectContext::new();
    c1.add_file("b.txt", "B".to_string());
    c1.add_directory("zdir");
    c1.add_file("zdir/inner.txt", "I".to_string());
    c1.add_file("a.txt", "A".to_string());
    c1.add_directory("adir");

    let mut c2 = ProjectContext::new();
    c2.add_directory("adir");
    c2.add_file("a.txt", "A".to_string());
    c2.add_directory("zdir");
    c2.add_file("b.txt", "B".to_string());
    c2.add_file("zdir/inner.txt", "I".to_string());

    assert_eq!(format_directory_tree(&c1), format_directory_tree(&c2));
    assert_eq!(format_project_context(&c1), format_project_context(&c2));
}

#[test]
fn directories_render_before_files_each_sorted() {
    let mut ctx = ProjectContext::new();
    ctx.add_file("zz.txt", "".to_string());
    ctx.add_directory("beta");
    ctx.add_file("aa.txt", "".to_string());
    ctx.add_directory("alpha");
    let tree = format_directory_tree(&ctx);
    let alpha = tree.find("alpha/").unwrap();
    let beta = tree.find("beta/").unwrap();
    let aa = tree.find("aa.txt").unwrap();
    let zz = tree.find("zz.txt").unwrap();
    assert!(alpha < beta);
    assert!(beta < aa);
    assert!(aa < zz);
}

#[test]
fn content_paths_equal_tree_leaves() {
    // round trip: every file header in the contents corresponds to a leaf
    // line in the tree, and vice versa
    let ctx = sample_context();
    let tree = format_directory_tree(&ctx);
    let contents = format_file_contents(&ctx);
    let headers: Vec<&str> = contents
        .lines()
        .filter(|l| l.starts_with("--- "))
        .map(|l| l.trim_start_matches("--- ").trim_end_matches(" ---"))
        .collect();
    assert_eq!(headers, vec!["a.txt", "sub/c.txt"]);
    let leaves: Vec<String> = tree
        .lines()
        .filter(|l| l.contains("\u{2500}\u{2500} ") && !l.ends_with('/'))
        .map(|l| l.split("\u{2500}\u{2500} ").nth(1).unwrap().to_string())
        .collect();
    assert_eq!(leaves, vec!["c.txt", "a.txt"]);
    let mut header_names: Vec<String> = headers
        .iter()
        .map(|h| h.rsplit('/').next().unwrap().to_string())
        .collect();
    let mut leaf_names = leaves.clone();
    header_names.sort();
    leaf_names.sort();
    assert_eq!(header_names, leaf_names);
}

#[test]
fn empty_project_renders_root_alone() {
    let ctx = ProjectContext::new();
    assert_eq!(format_directory_tree(&ctx), "./\n");
    assert_eq!(format_file_contents(&ctx), "");
    assert_eq!(
        format_project_context(&ctx),
        "Directory Structure:\n./\n\nFile Contents:"
    );
}

#[test]
fn content_without_trailing_newline_gains_one() {
    let mut ctx = ProjectContext::new();
    ctx.add_file("x.txt", "no newline".to_string());
    assert_eq!(format_file_contents(&ctx), "\n--- x.txt ---\nno newline\n");
    let mut ctx2 = ProjectContext::new();
    ctx2.add_file("x.txt", "with newline\n".to_string());
    assert_eq!(format_file_contents(&ctx2), "\n--- x.txt ---\nwith newline\n");
}

#[test]
fn sorting_is_lexicographic() {
    let v = vec!["b".to_string(), "a".to_string(), "ab".to_string(), "a".to_string()];
    let s = sort_strings(&v);
    assert_eq!(s, vec!["a".to_string(), "a".to_string(), "ab".to_string(), "b".to_string()]);
}

#[test]
fn path_helpers_split_and_name() {
    assert_eq!(apc::pathutil::path_file_name("a/b/c.txt"), "c.txt");
    assert_eq!(apc::pathutil::path_parent("a/b/c.txt"), "a/b");
    assert_eq!(apc::pathutil::path_parent("top.txt"), "");
    let comps = apc::pathutil::split_str("a/b/c", '/');
    assert_eq!(comps, vec!["a".to_string(), "b".to_string(), "c".to_string()]);
    assert!(apc::pathutil::str_le_exec("abc", "abd"));
    assert!(apc::pathutil::str_le_exec("ab", "abc"));
    assert!(!apc::pathutil::str_le_exec("b", "abc"));
}
