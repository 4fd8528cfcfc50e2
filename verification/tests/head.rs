use gadv::engine::head::{head_label, head_ref, resolve_ref};

fn label(head: &str, loose: Option<&str>, packed: Option<&str>) -> String {
    let oid = match head_ref(head) {
        Some(name) => resolve_ref(loose, packed, &name).unwrap_or_default(),
        None => String::new(),
    };
    head_label(head, &oid).unwrap()
}

#[test]
fn resolves_loose_branch_ref() {
    let head = "ref: refs/heads/main\n";
    assert_eq!(head_ref(head).as_deref(), Some("refs/heads/main"));
    assert_eq!(label(head, Some("0d1234567890abcdef01234567890abcdef0123456\n"), None), "main @ 0d12345");
}

#[test]
fn resolves_packed_ref() {
    let head = "ref: refs/heads/dev\n";
    let packed = "# pack-refs with: peeled\nffff refs/heads/other\r\naabbccddeeff0011223344556677889900aabbcc refs/heads/dev\n";
    assert_eq!(label(head, None, Some(packed)), "dev @ aabbccd");
    assert_eq!(label(head, Some("  \n"), Some(packed)), "dev @ aabbccd");
}

#[test]
fn empty_repo_and_detached_head() {
    assert_eq!(label("ref: refs/heads/main\n", None, None), "main @ (sin commits)");
    assert_eq!(label("f00dd00dfeedfaceb0001111222233334444555\n", None, None), "f00dd00dfe");
    assert_eq!(label("abc", None, None), "abc");
}

#[test]
fn cuts_inside_a_character_are_refused() {
    assert!(head_label("ref: refs/heads/x", "aaaaaaé").is_none());
    assert_eq!(head_label("ref: refs/heads/x", "aaaaaé").as_deref(), Some("x @ aaaaaé"));
    assert_eq!(head_label("ref: refs/heads/refs/heads/y", "1").as_deref(), Some("y @ 1"));
}
