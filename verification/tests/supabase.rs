use wrt::supabase::{patch_config, patch_line, patch_with_suffix, sanitize_suffix, PatchError};

/// What the configuration holds after a patch: the new text, or the old one where the
/// patch asks for no write.
fn patched(text: &str, name: &str, offset: i32) -> Result<String, PatchError> {
    match patch_config(text, name, offset) {
        Ok(Some(t)) => Ok(t),
        Ok(None) => Ok(text.to_string()),
        Err(e) => Err(e),
    }
}

#[test]
fn sanitize_suffix_limits_and_dashes() {
    assert_eq!(sanitize_suffix("A B C"), "a-b-c");
    assert!(sanitize_suffix("x".repeat(100).as_str()).len() <= 24);
}

#[test]
fn sanitize_suffix_edge_cases() {
    assert_eq!(sanitize_suffix("--a--b--"), "a-b");
    assert_eq!(sanitize_suffix(""), "");
    assert_eq!(sanitize_suffix("café"), "caf");
    assert_eq!(sanitize_suffix("   "), "");
    assert_eq!(sanitize_suffix("a_b_c"), "a-b-c");
    assert_eq!(sanitize_suffix("ABC123"), "abc123");
    assert_eq!(sanitize_suffix("---"), "");
}

#[test]
fn patch_config_updates_ports_and_project_and_urls() {
    let text = "project_id = \"myproj\"\nport = 5432\nauth_site_url = \"http://localhost:3000\"\n";
    let out = patched(text, "a-gpt-fix", 200).unwrap();
    assert!(out.contains("project_id = \"myproj-a-gpt-fix\""));
    assert!(out.contains("port = 5632"));
    assert!(out.contains("http://localhost:3200"));
}

#[test]
fn patch_config_rejects_port_overflow() {
    let result = patched("port = 65500\n", "test", 100);
    assert!(result.is_err());
    let err = result.unwrap_err().message();
    assert!(
        err.contains("port out of range"),
        "expected port out of range error, got: {err}"
    );
    assert!(err.contains("65500") && err.contains("65600"));
}

#[test]
fn patch_config_port_at_boundary() {
    let out = patched("port = 65435\n", "test", 100).unwrap();
    assert!(
        out.contains("port = 65535"),
        "expected port = 65535, got: {out}"
    );
}

#[test]
fn patch_config_project_id_is_idempotent() {
    let after_first = patched("project_id = \"myproj\"\n", "wt1", 0).unwrap();
    let after_second = patched(&after_first, "wt1", 0).unwrap();
    assert_eq!(
        after_first, after_second,
        "second run should not change project_id"
    );
    assert!(after_first.contains("project_id = \"myproj-wt1\""));
}

#[test]
fn patch_config_no_change_when_already_suffixed() {
    let out = patched("project_id = \"myproj-wt1\"\n", "wt1", 0).unwrap();
    assert!(
        out.contains("project_id = \"myproj-wt1\""),
        "should not double-suffix: {out}"
    );
    assert!(!out.contains("myproj-wt1-wt1"));
}

#[test]
fn patch_config_handles_all_port_types() {
    let text = "port = 5432\nshadow_port = 5433\nsmtp_port = 2500\npop3_port = 1100\n";
    let out = patched(text, "test", 100).unwrap();
    assert!(out.contains("port = 5532"), "port not offset: {out}");
    assert!(
        out.contains("shadow_port = 5533"),
        "shadow_port not offset: {out}"
    );
    assert!(
        out.contains("smtp_port = 2600"),
        "smtp_port not offset: {out}"
    );
    assert!(
        out.contains("pop3_port = 1200"),
        "pop3_port not offset: {out}"
    );
}

#[test]
fn patch_config_preserves_comments() {
    let out = patched("port = 5432 # database port\n", "test", 100).unwrap();
    assert!(
        out.contains("port = 5532 # database port"),
        "comment not preserved: {out}"
    );
}

#[test]
fn patch_config_exact_output() {
    let text = "project_id = \"myproj\"\nport = 5432\nauth_site_url = \"http://localhost:3000\"\n";
    assert_eq!(
        patch_config(text, "a-gpt-fix", 200),
        Ok(Some(
            "project_id = \"myproj-a-gpt-fix\"\nport = 5632\nauth_site_url = \"http://localhost:3200\"\n"
                .to_string()
        ))
    );
}

#[test]
fn patch_config_reports_both_ports() {
    assert_eq!(
        patch_config("port = 65500\n", "test", 100),
        Err(PatchError::PortOutOfRange { declared: 65500, attempted: 65600 })
    );
}

#[test]
fn patch_config_unchanged_text_asks_for_no_write() {
    assert_eq!(patch_config("# nothing here\nname = \"x\"", "wt", 100), Ok(None));
    assert_eq!(patch_config("", "wt", 100), Ok(None));
    assert_eq!(patch_config("port = 5432\n", "wt", 0), Ok(None));
}

#[test]
fn patch_config_ends_in_one_line_feed() {
    assert_eq!(
        patch_config("port = 1", "wt", 1),
        Ok(Some("port = 2\n".to_string()))
    );
    assert_eq!(
        patch_config("port = 1\n\n\n", "wt", 1),
        Ok(Some("port = 2\n".to_string()))
    );
    assert_eq!(
        patch_config("port = 1\r\n\r\n", "wt", 1),
        Ok(Some("port = 2\r\n\r\n".to_string()))
    );
    // Blank lines at the end are no reason to write.
    assert_eq!(patch_config("port = 1\n\n\n", "wt", 0), Ok(None));
}

#[test]
fn patch_config_first_failing_line_wins() {
    assert_eq!(
        patch_config("port = 65535\nshadow_port = 65534\n", "wt", 2),
        Err(PatchError::PortOutOfRange { declared: 65535, attempted: 65537 })
    );
}

#[test]
fn patch_config_url_out_of_range_is_left_alone() {
    assert_eq!(
        patch_config("url = \"http://127.0.0.1:65500\"\nport = 1\n", "wt", 100),
        Ok(Some("url = \"http://127.0.0.1:65500\"\nport = 101\n".to_string()))
    );
}

#[test]
fn patch_line_rules_in_order() {
    // An identifier line is never read as a URL line.
    assert_eq!(
        patch_line("project_id = \"http://localhost:80\"", "wt", 100),
        Ok("project_id = \"http://localhost:80-wt\"".to_string())
    );
    // A port line is never read as a URL line.
    assert_eq!(
        patch_line("port = 80 # http://localhost:80", "wt", 100),
        Ok("port = 180 # http://localhost:80".to_string())
    );
    assert_eq!(
        patch_line("a http://localhost:80 b https://127.0.0.1:443/x", "wt", 100),
        Ok("a http://localhost:180 b https://127.0.0.1:543/x".to_string())
    );
}

#[test]
fn patch_line_identifier_takes_longest_value() {
    assert_eq!(
        patch_line("  project_id=\"a\" # \"b\"", "wt", 0),
        Ok("  project_id=\"a\" # \"b-wt\"".to_string())
    );
    assert_eq!(
        patch_line("project_id = \"a\" # b\r", "wt", 0),
        Ok("project_id = \"a-wt\" # b\r".to_string())
    );
    assert_eq!(
        patch_line("project_id = \"a\" trailing", "wt", 0),
        Ok("project_id = \"a\" trailing".to_string())
    );
    assert_eq!(patch_line("project_id = \"a\"", "", 0), Ok("project_id = \"a\"".to_string()));
}

#[test]
fn patch_line_port_degenerate_values() {
    assert_eq!(patch_line("port = 0", "wt", 100), Ok("port = 0".to_string()));
    assert_eq!(
        patch_line("port = 99999999999", "wt", 100),
        Ok("port = 99999999999".to_string())
    );
    assert_eq!(patch_line("port = 0080", "wt", 1), Ok("port = 81".to_string()));
    assert_eq!(
        patch_line("port = 70000", "wt", 0),
        Err(PatchError::PortOutOfRange { declared: 70000, attempted: 70000 })
    );
    assert_eq!(
        patch_line("port = 5", "wt", -10),
        Err(PatchError::PortOutOfRange { declared: 5, attempted: -5 })
    );
    assert_eq!(patch_line("portal = 80", "wt", 1), Ok("portal = 80".to_string()));
    assert_eq!(patch_line("port = 80x", "wt", 1), Ok("port = 80x".to_string()));
}

#[test]
fn patch_with_suffix_twice_changes_nothing_more() {
    let text = "project_id = \"p\"\nport = 5432\nu = \"http://localhost:0080\"";
    let once = patch_with_suffix(text, "wt", 0).unwrap().unwrap();
    assert_eq!(once, "project_id = \"p-wt\"\nport = 5432\nu = \"http://localhost:80\"\n");
    assert_eq!(patch_with_suffix(&once, "wt", 0), Ok(None));
}

#[test]
fn error_message_names_both_ports() {
    let e = PatchError::PortOutOfRange { declared: 5, attempted: -5 };
    assert_eq!(e.message(), "port out of range after offset: 5 -> -5");
}
