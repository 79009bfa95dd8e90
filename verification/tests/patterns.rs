use regex::Regex;
use wrt::supabase::{patch_line, PatchError};

/// The rules of the patch written down as regular expressions.
struct Patterns {
    identifier: Regex,
    port: Regex,
    url: Regex,
}

fn patterns() -> Patterns {
    Patterns {
        identifier: Regex::new(r#"^(\s*project_id\s*=\s*)"(.*)"(\s*(?:#.*)?)$"#).unwrap(),
        port: Regex::new(
            r"^(\s*(?:port|shadow_port|smtp_port|pop3_port)\s*=\s*)([0-9]+)(\s*(?:#.*)?)$",
        )
        .unwrap(),
        url: Regex::new(r"((?:https?://)(?:127\.0\.0\.1|localhost)):([0-9]+)").unwrap(),
    }
}

fn expected(p: &Patterns, line: &str, suffix: &str, offset: i32) -> Result<String, PatchError> {
    if let Some(caps) = p.identifier.captures(line) {
        let base = caps.get(2).unwrap().as_str();
        if suffix.is_empty() || base.ends_with(&format!("-{suffix}")) {
            return Ok(line.to_string());
        }
        let prefix = caps.get(1).unwrap().as_str();
        let tail = caps.get(3).unwrap().as_str();
        return Ok(format!("{prefix}\"{base}-{suffix}\"{tail}"));
    }
    if let Some(caps) = p.port.captures(line) {
        let n: i64 = caps.get(2).unwrap().as_str().parse::<i32>().unwrap_or(0).into();
        if n == 0 {
            return Ok(line.to_string());
        }
        let n2 = n + i64::from(offset);
        if !(1..=65535).contains(&n2) {
            return Err(PatchError::PortOutOfRange { declared: n, attempted: n2 });
        }
        if n2 == n {
            return Ok(line.to_string());
        }
        let prefix = caps.get(1).unwrap().as_str();
        let tail = caps.get(3).unwrap().as_str();
        return Ok(format!("{prefix}{n2}{tail}"));
    }
    let mut out = String::new();
    let mut at = 0;
    for caps in p.url.captures_iter(line) {
        let whole = caps.get(0).unwrap();
        let digits = caps.get(2).unwrap();
        out.push_str(&line[at..digits.start()]);
        let moved = match digits.as_str().parse::<i64>() {
            Ok(v) if (1..=65535).contains(&(v + i64::from(offset))) => {
                (v + i64::from(offset)).to_string()
            }
            _ => digits.as_str().to_string(),
        };
        out.push_str(&moved);
        at = whole.end();
    }
    out.push_str(&line[at..]);
    Ok(out)
}

fn check(p: &Patterns, line: &str, suffix: &str, offset: i32) {
    assert_eq!(
        patch_line(line, suffix, offset),
        expected(p, line, suffix, offset),
        "line {line:?}, suffix {suffix:?}, offset {offset}"
    );
}

const OFFSETS: [i32; 6] = [0, 1, 100, 65535, -1, -70000];

#[test]
fn assignments_agree_with_the_patterns() {
    let p = patterns();
    let leads = ["", " ", "\t ", "\u{a0}", "\u{3000}\u{2003}", "x", "#", "\u{200b}"];
    let keys = [
        "project_id", "port", "shadow_port", "smtp_port", "pop3_port", "Port", "ports", "xport",
        "project_ids", "project id", "shadow", "",
    ];
    let gaps = ["", " ", "  \t", "\u{85}", "-"];
    let values = [
        "5432", "0", "0080", "65535", "65436", "2147483647", "2147483648", "99999999999999999999",
        "\"\"", "\"a\"", "\"a-wt\"", "\"a\" # \"b\"", "\"a\"b", "\"a", "a\"", "\"-wt\"", "\"wt\"",
        "54 32", "5432x", "-5", "", "\"http://localhost:80\"", "80 # http://localhost:80",
        "\"a\"\"", "\"a\" \"",
    ];
    let tails = ["", " ", "\r", " # c", "#", " #\"", " x", "\t# port = 1", "\u{2028}"];
    for lead in leads {
        for key in keys {
            for gap in gaps {
                for value in values {
                    for tail in tails {
                        let line = format!("{lead}{key}{gap}={gap}{value}{tail}");
                        for offset in [0, 100, -70000] {
                            check(&p, &line, "wt", offset);
                        }
                    }
                }
            }
        }
    }
}

#[test]
fn assignments_without_an_equals_sign_agree() {
    let p = patterns();
    for line in ["port 5432", "port", "port =", "= 5432", "project_id \"a\"", "project_id", "=", ""] {
        for offset in OFFSETS {
            check(&p, line, "wt", offset);
            check(&p, line, "", offset);
        }
    }
}

#[test]
fn suffixes_agree_with_the_patterns() {
    let p = patterns();
    let lines = [
        "project_id = \"myproj\"",
        "project_id = \"myproj-wt1\"",
        "project_id = \"myproj-wt1-wt1\"",
        "project_id = \"wt1\"",
        "project_id = \"-wt1\"",
        "project_id = \"\"",
        "project_id = \"a-\"",
        "  project_id=\"x\"   # id",
    ];
    for line in lines {
        for suffix in ["", "wt1", "w", "a-b-c", "1"] {
            check(&p, line, suffix, 0);
            check(&p, line, suffix, 100);
        }
    }
}

#[test]
fn urls_agree_with_the_patterns() {
    let p = patterns();
    let schemes = ["http://", "https://", "httpss://", "http:/", "ftp://", "HTTP://", "hhttp://", ""];
    let hosts = ["localhost", "127.0.0.1", "127.0.0.2", "127x0y0z1", "localhost.", "Localhost", "example.com"];
    let ports = [":80", ":0", ":0080", ":65535", ":65436", ":70000", ":99999999999999999999", ":", "", ":8a", ":x"];
    let rests = ["", "/", "/path?x=1", "1", " http://localhost:1", "http://127.0.0.1:2", "\"", ":3"];
    for scheme in schemes {
        for host in hosts {
            for port in ports {
                for rest in rests {
                    let url = format!("{scheme}{host}{port}{rest}");
                    for line in [url.clone(), format!("site_url = \"{url}\""), format!("x{url}h")] {
                        for offset in OFFSETS {
                            check(&p, &line, "wt", offset);
                        }
                    }
                }
            }
        }
    }
}

#[test]
fn urls_next_to_each_other_agree() {
    let p = patterns();
    let lines = [
        "http://localhost:80http://localhost:81",
        "http://localhost:http://localhost:81",
        "http://localhttp://localhost:81",
        "hhttp://localhost:1",
        "http://http://127.0.0.1:9/",
        "a = [\"http://localhost:3000\", \"https://127.0.0.1:3001\", \"http://localhost:65500\"]",
        "http://127.0.0.1:127.0.0.1:5",
        "https://localhost:1:2:3",
    ];
    for line in lines {
        for offset in OFFSETS {
            check(&p, line, "wt", offset);
        }
    }
}

/// The whole patch as the patterns give it, line by line.
fn expected_text(p: &Patterns, text: &str, suffix: &str, offset: i32) -> Result<Option<String>, PatchError> {
    let mut lines: Vec<String> = text.split('\n').map(|s| s.to_string()).collect();
    let mut changed = false;
    for line in &mut lines {
        let new = expected(p, line, suffix, offset)?;
        if new != *line {
            *line = new;
            changed = true;
        }
    }
    if !changed {
        return Ok(None);
    }
    let mut out = lines.join("\n").trim_end_matches('\n').to_string();
    out.push('\n');
    Ok(Some(out))
}

const TEXTS: [&str; 12] = [
    "",
    "\n",
    "\n\n",
    "project_id = \"myproj\"\nport = 5432\nauth_site_url = \"http://localhost:3000\"\n",
    "project_id = \"myproj\"\r\nport = 5432\r\n[api]\r\nport = 54321\r\n",
    "[db]\nport = 54322\nshadow_port = 54320\n\n[inbucket]\nsmtp_port = 54325\npop3_port = 54326",
    "# only a comment",
    "port = 65535\nport = 1\n",
    "port = 1\nport = 65535\n",
    "site_url = \"http://127.0.0.1:3000\"\nadditional_redirect_urls = [\"https://127.0.0.1:3000\"]\n\n\n",
    "project_id = \"a\"\nproject_id = \"b-wt\"\n  project_id=\"c\" # id\n",
    "port = 0080 # http://localhost:0080\nx = \"http://localhost:0080\"",
];

#[test]
fn texts_agree_with_the_patterns() {
    let p = patterns();
    for text in TEXTS {
        for offset in [0, 1, 100, 11000, 65000, -1] {
            for suffix in ["", "wt", "a-b"] {
                assert_eq!(
                    wrt::supabase::patch_with_suffix(text, suffix, offset),
                    expected_text(&p, text, suffix, offset),
                    "text {text:?}, suffix {suffix:?}, offset {offset}"
                );
            }
        }
    }
}

#[test]
fn a_second_patch_without_offset_changes_nothing() {
    for text in TEXTS {
        for suffix in ["", "wt", "a-b"] {
            match wrt::supabase::patch_with_suffix(text, suffix, 0) {
                Ok(Some(once)) => {
                    assert_eq!(
                        wrt::supabase::patch_with_suffix(&once, suffix, 0),
                        Ok(None),
                        "text {text:?}, suffix {suffix:?}"
                    );
                    assert!(once.ends_with('\n') && !once.ends_with("\n\n"));
                }
                Ok(None) => {}
                Err(e) => panic!("text {text:?}: {}", e.message()),
            }
        }
    }
}

#[test]
fn a_second_patch_moves_ports_again() {
    let once = wrt::supabase::patch_with_suffix("port = 5432\n", "wt", 100).unwrap().unwrap();
    assert_eq!(once, "port = 5532\n");
    assert_eq!(
        wrt::supabase::patch_with_suffix(&once, "wt", 100),
        Ok(Some("port = 5632\n".to_string()))
    );
    // A URL whose port would leave the range on the second run has come to rest.
    let once = wrt::supabase::patch_with_suffix("u = http://localhost:65000", "wt", 500).unwrap().unwrap();
    assert_eq!(once, "u = http://localhost:65500\n");
    assert_eq!(wrt::supabase::patch_with_suffix(&once, "wt", 500), Ok(None));
}
