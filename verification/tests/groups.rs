use simple_ssh_manager::groups::{group_name, headers_to_draw};
use simple_ssh_manager::servers::Server;
use simple_ssh_manager::text::{decimal, is_white_space, join, split, trim};

fn in_group(group: &str) -> Server {
    Server { name: "n".into(), host: "h".into(), group: group.into(), ..Server::default() }
}

#[test]
fn nested_parent_drawn_once() {
    let mut drawn = Vec::new();
    // First subgroup draws both levels.
    assert_eq!(
        headers_to_draw("catg1/subcatg1", &mut drawn),
        vec![("catg1".to_string(), 0), ("subcatg1".to_string(), 1)]
    );
    // Sibling subgroup reuses the parent header.
    assert_eq!(
        headers_to_draw("catg1/subcatg2", &mut drawn),
        vec![("subcatg2".to_string(), 1)]
    );
    // Unrelated top-level group.
    assert_eq!(
        headers_to_draw("other", &mut drawn),
        vec![("other".to_string(), 0)]
    );
}

#[test]
fn drawn_paths_are_recorded_and_not_redrawn() {
    let mut drawn = Vec::new();
    headers_to_draw("a/b", &mut drawn);
    assert_eq!(drawn, vec!["a".to_string(), "a/b".to_string()]);
    assert!(headers_to_draw("a/b", &mut drawn).is_empty());
    assert_eq!(drawn.len(), 2);
}

#[test]
fn parents_of_a_drawn_group_are_not_redrawn() {
    let mut drawn = Vec::new();
    headers_to_draw("a/b/c", &mut drawn);
    for parent in ["a", "a/b", "a/b/c"] {
        assert!(headers_to_draw(parent, &mut drawn).is_empty());
    }
    assert_eq!(drawn.len(), 3);
    assert_eq!(headers_to_draw("b", &mut drawn), vec![("b".to_string(), 0)]);
}

#[test]
fn headers_of_a_path_with_empty_pieces() {
    let mut drawn = Vec::new();
    assert_eq!(
        headers_to_draw("/a", &mut drawn),
        vec![("".to_string(), 0), ("a".to_string(), 1)]
    );
    assert_eq!(drawn, vec!["".to_string(), "/a".to_string()]);
}

#[test]
fn group_name_trims_segments() {
    assert_eq!(group_name(&in_group(" prod / db ")), "prod/db");
    assert_eq!(group_name(&in_group("a//b/ /c/")), "a/b/c");
    assert_eq!(group_name(&in_group("prod")), "prod");
    assert_eq!(group_name(&in_group("two words/x")), "two words/x");
    assert_eq!(group_name(&in_group("\u{3000}\u{e9}t\u{e9}\u{a0}")), "\u{e9}t\u{e9}");
}

#[test]
fn group_name_of_no_group() {
    assert_eq!(group_name(&in_group("")), "Ungrouped");
    assert_eq!(group_name(&in_group("  ")), "Ungrouped");
    assert_eq!(group_name(&in_group(" / /")), "Ungrouped");
}

#[test]
fn group_name_is_normal() {
    for g in ["", " a / b", "a//b", "Ungrouped", "\t/x y/"] {
        let once = group_name(&in_group(g));
        assert_eq!(group_name(&in_group(&once)), once);
    }
}

#[test]
fn white_space_is_that_of_the_standard_library() {
    for u in 0..=0x10ffffu32 {
        if let Some(c) = char::from_u32(u) {
            assert_eq!(is_white_space(c), c.is_whitespace(), "{u:x}");
        }
    }
}

#[test]
fn trim_as_the_standard_library_does() {
    for s in ["", " ", "a", " a", "a ", "  a b\n", "\u{2003}x\u{85}", "\t\r\n", "\u{200b}x"] {
        assert_eq!(trim(s), s.trim());
    }
}

#[test]
fn split_and_join_are_inverse() {
    for s in ["", "/", "a", "a/b", "/a//b/", "\u{e9}/\u{1f600}"] {
        let parts = split(s, '/');
        let expected: Vec<String> = s.split('/').map(str::to_string).collect();
        assert_eq!(parts, expected);
        assert_eq!(join(&parts), s);
    }
}

#[test]
fn decimal_as_the_standard_library_does() {
    for n in [0u64, 7, 10, 59, 60, 120, 1234567890, u64::MAX] {
        assert_eq!(decimal(n), n.to_string());
    }
}
