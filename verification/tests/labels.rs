use rust_grapher::calls::{FnGraphArgs, FnNodeInfo};
use rust_grapher::deps::{DepKind, DepsArgs, NodeInfo};
use rust_grapher::helper::{format_fn_label, format_node_label, sanitize_name};

fn deps_args() -> DepsArgs {
    DepsArgs {
        package: None,
        depth: 0,
        no_dev: false,
        no_build: false,
        exclude: Vec::new(),
        only: Vec::new(),
        focus: None,
        workspace_only: false,
        no_transitive: false,
        dedup: false,
        show_versions: false,
    }
}

fn fn_args() -> FnGraphArgs {
    FnGraphArgs {
        focus: None,
        depth: 0,
        exclude: Vec::new(),
        public_only: false,
        show_signatures: false,
    }
}

#[test]
fn sanitize_replaces_dash_and_dot() {
    assert_eq!(sanitize_name("foo-bar.baz"), "foo_bar_baz");
    assert_eq!(sanitize_name("plain"), "plain");
    assert_eq!(sanitize_name(""), "");
}

#[test]
fn node_label_without_version() {
    let info = NodeInfo {
        name: String::from("serde-json"),
        version: String::from("1.0.2"),
        kind: DepKind::Normal,
        is_workspace_member: false,
    };
    assert_eq!(format_node_label(&info, &deps_args()), "serde_json");
}

#[test]
fn node_label_with_version() {
    let info = NodeInfo {
        name: String::from("serde"),
        version: String::from("1.0.2"),
        kind: DepKind::Normal,
        is_workspace_member: false,
    };
    let mut args = deps_args();
    args.show_versions = true;
    assert_eq!(format_node_label(&info, &args), "serde_1_0_2");
}

fn fn_info(signature: Option<&str>) -> FnNodeInfo {
    FnNodeInfo {
        name: String::from("my-fn"),
        qualified_name: String::from("m::my-fn"),
        file_path: String::from("lib.rs"),
        line: 3,
        is_public: true,
        signature: signature.map(String::from),
        is_async: false,
    }
}

#[test]
fn fn_label_uses_sanitized_name_by_default() {
    assert_eq!(format_fn_label(&fn_info(Some("fn f()")), &fn_args()), "my_fn");
}

#[test]
fn fn_label_uses_signature_when_shown() {
    let mut args = fn_args();
    args.show_signatures = true;
    assert_eq!(
        format_fn_label(&fn_info(Some("fn f(a: u32) -> bool")), &args),
        "fn_f_a:_u32_____bool"
    );
}

#[test]
fn fn_label_falls_back_without_signature() {
    let mut args = fn_args();
    args.show_signatures = true;
    assert_eq!(format_fn_label(&fn_info(None), &args), "my_fn");
}
