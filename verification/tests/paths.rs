use dedoc_translate::paths::{cache_path, hash_text, sanitize_docset};

#[test]
fn hash_is_fnv_1a() {
    assert_eq!(hash_text(""), "cbf29ce484222325");
    assert_eq!(hash_text("a"), "af63dc4c8601ec8c");
    assert_eq!(hash_text("foobar"), "85944171f73967e8");
}

#[test]
fn hash_has_sixteen_digits() {
    for i in 0..500 {
        let hash = hash_text(&format!("text {i}"));
        assert_eq!(hash.len(), 16);
        assert!(hash.chars().all(|c| c.is_ascii_digit() || ('a'..='f').contains(&c)));
    }
}

#[test]
fn docset_is_a_plain_name() {
    assert_eq!(sanitize_docset("../evil"), "___evil");
    assert_eq!(sanitize_docset("rust~1.70 é"), "rust_1_70__");
    assert_eq!(sanitize_docset(""), "unknown");
    assert_eq!(sanitize_docset("Node-JS_18"), "Node-JS_18");
}

#[test]
fn cache_path_is_below_the_program_directory() {
    let path = cache_path(Ok("/home/user/.dedoc".to_string()), "../rust", "std/vec");
    assert_eq!(
        path,
        Ok(vec![
            "/home/user/.dedoc".to_string(),
            "translated".to_string(),
            "___rust".to_string(),
            "4b662e334b1e9bc3.json".to_string(),
        ])
    );
}

#[test]
fn cache_path_needs_the_program_directory() {
    let path = cache_path(Err("no home".to_string()), "rust", "std/vec");
    assert_eq!(path, Err("no home".to_string()));
}
