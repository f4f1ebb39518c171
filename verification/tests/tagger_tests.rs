use wl::tagger::{add_tag, get_tags_for_lowercase, get_tags_for_path, tag_set_of, Tag};

fn strings(v: &[&str]) -> Vec<String> {
    v.iter().map(|s| s.to_string()).collect()
}

#[test]
fn tags_for_web_content_path() {
    let tags = get_tags_for_path("/repo/Discovery/Web-Content/common.txt");
    assert_eq!(tags, vec!["discovery".to_string(), "webcontent".to_string(), "web".to_string()]);
}

#[test]
fn tags_for_xss_path() {
    let tags = get_tags_for_path("/repo/Fuzzing/XSS/payload.txt");
    assert_eq!(tags, vec!["fuzzing".to_string(), "xss".to_string(), "injection".to_string()]);
}

#[test]
fn add_tag_skips_repeats() {
    let mut tags = vec!["web".to_string()];
    add_tag(&mut tags, "web");
    add_tag(&mut tags, "dns");
    assert_eq!(tags, vec!["web".to_string(), "dns".to_string()]);
}

#[test]
fn separators_are_ignored_when_matching() {
    assert_eq!(get_tags_for_path("/x/Web_Shells/a.txt"), vec!["webshells".to_string(), "web".to_string()]);
    assert_eq!(get_tags_for_path("/x/S-Q-L-I/a.txt"), vec!["sqli".to_string(), "fuzzing".to_string(), "injection".to_string()]);
}

#[test]
fn matching_ignores_case_and_keeps_taxonomy_order() {
    assert_eq!(
        get_tags_for_path("/Passwords/Leaked-Databases/DNS.txt"),
        vec!["dns".to_string(), "discovery".to_string(), "passwords".to_string(), "leaked".to_string()]
    );
    assert!(get_tags_for_path("/x/rockyou.txt").is_empty());
    assert_eq!(get_tags_for_path("/x/ÉMAIL/SQLI.txt"), strings(&["sqli", "fuzzing", "injection"]));
}

#[test]
fn ai_is_only_for_llm_and_ai_lists() {
    assert_eq!(get_tags_for_path("Discovery/DNS/subdomains-top1million-5000.txt"), strings(&["discovery", "dns"]));
    assert_eq!(get_tags_for_path("Ai/LLM_Testing/prompt-injection.txt"), strings(&["ai"]));
    assert_eq!(get_tags_for_path("Fuzzing/LLM/jailbreaks.txt"), strings(&["fuzzing", "ai"]));
    assert!(get_tags_for_path("/home/maintainer/lists/email.txt").is_empty());
}

#[test]
fn payloads_only_when_nothing_more_specific_matches() {
    assert_eq!(get_tags_for_path("Fuzzing/XSS/xss-payloads.txt"), strings(&["fuzzing", "xss", "injection"]));
    assert_eq!(get_tags_for_path("Payloads/generic-payloads.txt"), strings(&["payloads"]));
    assert_eq!(get_tags_for_path("Web-Shells/payloads.txt"), strings(&["webshells", "web"]));
}

#[test]
fn common_credentials_are_creds() {
    assert_eq!(
        get_tags_for_path("Passwords/Common-Credentials/10k-most-common.txt"),
        strings(&["passwords", "creds"])
    );
    assert_eq!(get_tags_for_path("Passwords/Default-Creds/x.txt"), strings(&["passwords", "creds"]));
}

#[test]
fn implications_are_followed_to_the_end() {
    assert_eq!(get_tags_for_path("Misc/SNMP/community.txt"), strings(&["snmp", "infra", "discovery"]));
    assert_eq!(get_tags_for_path("iot/routers.txt"), strings(&["iot", "infra", "discovery"]));
    assert_eq!(get_tags_for_path("Leaked-Databases/x.txt"), strings(&["leaked", "passwords"]));
    assert_eq!(
        tag_set_of("fuzzing/lfi/ports.txt"),
        vec![Tag::Ports, Tag::Infra, Tag::Discovery, Tag::Fuzzing, Tag::Lfi, Tag::Injection]
    );
    assert_eq!(get_tags_for_lowercase("misc/mainframe.txt"), strings(&["infra", "discovery", "mainframe"]));
}
