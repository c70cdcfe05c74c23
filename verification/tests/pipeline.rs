use lava::compose::compose_template;
use lava::copy_plan::{plan_copy, rule_allows_deeply, CopyRule};
use lava::front_matter::{parse_page, Page, PageError};
use lava::meta::Metadata;
use lava::render::{create_content, render_all};

fn bytes(s: &str) -> Vec<u8> {
    s.as_bytes().to_vec()
}

fn get(meta: &Metadata, key: &str) -> Option<Vec<u8>> {
    meta.get(&bytes(key))
}

#[test]
fn front_matter_round_trip() {
    let input = bytes("---\ntemplate: t\nkey: value\n---\nBODY");
    let page = match parse_page(&input) {
        Ok(p) => p,
        Err(_) => panic!("expected a page"),
    };
    assert_eq!(page.template, bytes("t"));
    assert_eq!(get(&page.meta, "key"), Some(bytes("value")));
    assert_eq!(get(&page.meta, "template"), Some(bytes("t")));
    let expected = markdown::to_html("BODY").into_bytes();
    assert_eq!(get(&page.meta, "content"), Some(expected));
}

#[test]
fn body_is_rendered_not_copied() {
    let input = bytes("---\ntemplate: t\n---\n# Title");
    let page = match parse_page(&input) {
        Ok(p) => p,
        Err(_) => panic!("expected a page"),
    };
    let content = get(&page.meta, "content").unwrap();
    assert_ne!(content, bytes("# Title"));
    assert_eq!(content, bytes("<h1>Title</h1>"));
}

#[test]
fn missing_front_matter_fails_whole() {
    let input = bytes("no dashes here");
    match parse_page(&input) {
        Ok(_) => panic!("must not parse"),
        Err(e) => assert_eq!(e, PageError::MissingFrontMatter),
    }
}

#[test]
fn empty_input_fails() {
    let input = bytes("");
    match parse_page(&input) {
        Ok(_) => panic!("must not parse"),
        Err(e) => assert_eq!(e, PageError::MissingFrontMatter),
    }
}

#[test]
fn missing_template_key_fails_page() {
    let input = bytes("---\nkey: v\n---\nx");
    match parse_page(&input) {
        Ok(_) => panic!("must not parse"),
        Err(e) => assert_eq!(e, PageError::MissingTemplateKey),
    }
}

#[test]
fn duplicate_key_last_wins() {
    let input = bytes("---\ntemplate: a\ntemplate: b\n---\nx");
    let page = match parse_page(&input) {
        Ok(p) => p,
        Err(_) => panic!("expected a page"),
    };
    assert_eq!(page.template, bytes("b"));
}

#[test]
fn explicit_content_key_is_overwritten() {
    let input = bytes("---\ntemplate: t\ncontent: explicit\n---\nBody");
    let page = match parse_page(&input) {
        Ok(p) => p,
        Err(_) => panic!("expected a page"),
    };
    let expected = markdown::to_html("Body").into_bytes();
    assert_eq!(get(&page.meta, "content"), Some(expected));
}

#[test]
fn values_are_trimmed() {
    let input = bytes("---\ntemplate:   t  \n---\nx");
    let page = match parse_page(&input) {
        Ok(p) => p,
        Err(_) => panic!("expected a page"),
    };
    assert_eq!(page.template, bytes("t"));
}

#[test]
fn greedy_close_takes_last_dashed_line() {
    let input = bytes("---\ntemplate: t\n---\nabc\n----\nrest");
    let page = match parse_page(&input) {
        Ok(p) => p,
        Err(_) => panic!("expected a page"),
    };
    assert_eq!(page.template, bytes("t"));
    let expected = markdown::to_html("rest").into_bytes();
    assert_eq!(get(&page.meta, "content"), Some(expected));
}

#[test]
fn partial_inlining_is_single_pass() {
    let mut partials = Metadata::new();
    partials.insert(bytes("other"), bytes("OTHER"));
    partials.insert(bytes("header"), bytes("A {{p other}} B"));
    let raw = bytes("X {{p header}} Y");
    let (composed, warns) = compose_template(&raw, &partials);
    assert_eq!(composed, bytes("X A {{p other}} B Y"));
    assert!(warns.is_empty());
}

#[test]
fn unresolved_partial_left_in_place_and_warned() {
    let partials = Metadata::new();
    let raw = bytes("A {{p missing}} B");
    let (composed, warns) = compose_template(&raw, &partials);
    assert_eq!(composed, bytes("A {{p missing}} B"));
    assert_eq!(warns, vec![bytes("missing")]);
}

#[test]
fn placeholder_substitution() {
    let mut keys = Metadata::new();
    keys.insert(bytes("name"), bytes("Rosa"));
    let template = bytes("Hi {{= name}}!");
    assert_eq!(create_content(&template, &keys), bytes("Hi Rosa!"));
}

#[test]
fn placeholder_without_key_left_verbatim() {
    let keys = Metadata::new();
    let template = bytes("Hi {{= name}}!");
    assert_eq!(create_content(&template, &keys), bytes("Hi {{= name}}!"));
}

fn site_rule() -> CopyRule {
    CopyRule {
        dest: Some(vec![bytes("_site")]),
        reserved: vec![bytes("_pages"), bytes("_templates")],
    }
}

fn path(parts: &[&str]) -> Vec<Vec<u8>> {
    parts.iter().map(|p| bytes(p)).collect()
}

#[test]
fn exclusion_keeps_only_assets() {
    let files = vec![
        path(&[".git", "config"]),
        path(&["_pages", "a.md"]),
        path(&["_templates", "t.html"]),
        path(&["assets", "img.png"]),
    ];
    let rule = site_rule();
    let plan = plan_copy(files, &rule);
    assert_eq!(plan, vec![path(&["assets", "img.png"])]);
}

#[test]
fn destination_under_source_is_not_recopied() {
    let files = vec![path(&["_site", "old.html"]), path(&["readme.txt"])];
    let rule = site_rule();
    let plan = plan_copy(files, &rule);
    assert_eq!(plan, vec![path(&["readme.txt"])]);
}

#[test]
fn dotfile_inside_allowed_directory_is_skipped() {
    let files = vec![path(&["assets", ".hidden"]), path(&["assets", "a.css"])];
    let rule = site_rule();
    assert!(!rule_allows_deeply(&rule, &path(&["assets", ".hidden"])));
    let plan = plan_copy(files, &rule);
    assert_eq!(plan, vec![path(&["assets", "a.css"])]);
}

#[test]
fn copy_plan_is_deterministic() {
    let files = vec![
        path(&[".git", "config"]),
        path(&["assets", "img.png"]),
        path(&["index.md"]),
    ];
    let rule = site_rule();
    let first = plan_copy(files.clone(), &rule);
    let second = plan_copy(files, &rule);
    assert_eq!(first, second);
}

#[test]
fn unknown_template_skips_page_and_build_continues() {
    let mut templates = Metadata::new();
    templates.insert(bytes("base"), bytes("T: {{= content}}"));

    let broken = match parse_page(&bytes("---\ntemplate: nope\n---\nx")) {
        Ok(p) => p,
        Err(_) => panic!("expected a page"),
    };
    let fine = match parse_page(&bytes("---\ntemplate: base\n---\nhello")) {
        Ok(p) => p,
        Err(_) => panic!("expected a page"),
    };
    let pages: Vec<Page> = vec![broken, fine];
    let outputs = render_all(&templates, &pages);
    assert_eq!(outputs.len(), 2);
    assert!(outputs[0].is_none());
    let expected = {
        let mut t = bytes("T: ");
        t.extend_from_slice(&markdown::to_html("hello").into_bytes());
        t
    };
    assert_eq!(outputs[1], Some(expected));
}

#[test]
fn empty_metadata_block_has_no_template() {
    let input = bytes("---\n---\nx");
    match parse_page(&input) {
        Ok(_) => panic!("must not parse"),
        Err(e) => assert_eq!(e, PageError::MissingTemplateKey),
    }
}

#[test]
fn unclosed_placeholder_left_verbatim() {
    let mut keys = Metadata::new();
    keys.insert(bytes("name"), bytes("Rosa"));
    let template = bytes("Hi {{= name");
    assert_eq!(create_content(&template, &keys), bytes("Hi {{= name"));
}

#[test]
fn partial_reference_does_not_span_lines() {
    let mut partials = Metadata::new();
    partials.insert(bytes("a\nb"), bytes("NO"));
    let raw = bytes("{{p a\nb}}");
    let (composed, warns) = compose_template(&raw, &partials);
    assert_eq!(composed, bytes("{{p a\nb}}"));
    assert!(warns.is_empty());
}

#[test]
fn composing_without_references_changes_nothing() {
    let partials = Metadata::new();
    let raw = bytes("plain text { } {{ }} {p x}");
    let (composed, warns) = compose_template(&raw, &partials);
    assert_eq!(composed, raw);
    assert!(warns.is_empty());
}
