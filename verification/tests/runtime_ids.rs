use tree_shake::runtime_suffix::{
    append_runtime_suffix, is_runtime_module_id, strip_runtime_suffix,
};

#[test]
fn runtime_marker_is_recognized_at_the_end() {
    assert!(is_runtime_module_id("src/index.ts.farm-runtime"));
    assert!(is_runtime_module_id(".farm-runtime"));
    assert!(!is_runtime_module_id("src/index.ts"));
    assert!(!is_runtime_module_id("short"));
    assert!(!is_runtime_module_id("a.farm-runtime.ts"));
}

#[test]
fn appending_marks_an_identifier() {
    assert_eq!(append_runtime_suffix("src/a.js"), "src/a.js.farm-runtime");
    assert!(is_runtime_module_id(&append_runtime_suffix("src/a.js")));
}

#[test]
fn stripping_removes_every_mark() {
    assert_eq!(strip_runtime_suffix("src/a.ts.farm-runtime"), "src/a.ts");
    assert_eq!(
        strip_runtime_suffix("a.farm-runtime/b.farm-runtime"),
        "a/b"
    );
    assert_eq!(strip_runtime_suffix("plain.js"), "plain.js");
}

#[test]
fn stripping_undoes_appending() {
    let id = "src/entry.tsx";
    assert_eq!(strip_runtime_suffix(&append_runtime_suffix(id)), id);
}
