use chatbook::sanitize::{sanitize, message_urls, process_title};
use chatbook::render::{BodySegment, PreparedMessage, extract_body, render_message, render_chapter};
use chatbook::manuscript::{ManuscriptConfig, build_root_document};

fn no_titles() -> Vec<(String, Option<String>)> {
    Vec::new()
}

fn prepared(
    is_from_me: bool,
    segments: Vec<BodySegment>,
    titles: Vec<(String, Option<String>)>,
) -> PreparedMessage {
    PreparedMessage { is_from_me, segments, year: 2023, month: 9, day: 5, titles }
}

#[test]
fn plain_text_passes_through_unchanged() {
    assert_eq!(sanitize("an ordinary message.", &no_titles()), "an ordinary message.");
}

#[test]
fn smart_characters_become_ascii() {
    assert_eq!(
        sanitize("\u{201C}hi\u{201D} it\u{2019}s me\u{2026}", &no_titles()),
        "\"hi\" it's me..."
    );
}

#[test]
fn control_characters_are_escaped() {
    let out = sanitize("Cost: $5 & 10% off_now", &no_titles());
    assert!(out.contains("\\$5 \\& 10\\% off\\_now"));
    assert_eq!(out, "Cost: \\$5 \\& 10\\% off\\_now");
}

#[test]
fn every_control_character_has_a_safe_spelling() {
    assert_eq!(sanitize("a\\b", &no_titles()), "a\\textbackslash\\ b");
    assert_eq!(sanitize("a^b~c", &no_titles()), "a\\textasciicircum\\ b\\textasciitilde\\ c");
    assert_eq!(sanitize("#{x}", &no_titles()), "\\#\\{x\\}");
    assert_eq!(sanitize("one\ntwo", &no_titles()), "one\\newline\ntwo");
}

#[test]
fn url_with_title_is_annotated() {
    let titles = vec![(
        "https://example.com/page".to_string(),
        Some("Example Title".to_string()),
    )];
    assert_eq!(
        sanitize("go https://example.com/page now", &titles),
        "go (link: example.com, Example Title) now"
    );
}

#[test]
fn url_without_title_shows_host_only() {
    assert_eq!(
        sanitize("see http://site.org/a/b end", &no_titles()),
        "see (link: site.org) end"
    );
}

#[test]
fn urls_are_extracted_in_text_order() {
    let urls = message_urls("x https://a.com/b and http://c.d!");
    assert_eq!(urls, vec!["https://a.com/b".to_string(), "http://c.d!".to_string()]);
}

#[test]
fn excluded_title_renders_like_failed_fetch() {
    assert_eq!(process_title(Some("404 Not Found".to_string())), None);
    assert_eq!(process_title(None), None);
    let url = "https://dead.example/x".to_string();
    let excluded = vec![(url.clone(), process_title(Some("404".to_string())))];
    let failed = vec![(url.clone(), process_title(None))];
    let text = "link https://dead.example/x here";
    assert_eq!(sanitize(text, &excluded), sanitize(text, &failed));
    assert_eq!(sanitize(text, &excluded), "link (link: dead.example) here");
}

#[test]
fn kept_titles_are_flattened_to_one_line() {
    assert_eq!(process_title(Some("A\nB\tC".to_string())), Some("A B C".to_string()));
}

#[test]
fn emoji_runs_get_the_emoji_font() {
    assert_eq!(
        sanitize("hi \u{1F600}\u{1F601}!", &no_titles()),
        "hi {\\emojifont \u{1F600}\u{1F601}}!"
    );
}

#[test]
fn emoji_variation_selector_is_stripped() {
    assert_eq!(
        sanitize("a\u{2764}\u{FE0F}b", &no_titles()),
        "a{\\emojifont \u{2764}}b"
    );
}

#[test]
fn body_extraction_keeps_last_text_and_counts_attachments() {
    let segs = vec![
        BodySegment::Text("first".to_string()),
        BodySegment::Attachment,
        BodySegment::Other,
        BodySegment::Text("second".to_string()),
        BodySegment::Attachment,
    ];
    let (text, count) = extract_body(&segs);
    assert_eq!(text, Some("second".to_string()));
    assert_eq!(count, 2);
}

#[test]
fn attachment_badge_is_pluralized_with_no_stray_separator() {
    let m = prepared(false, vec![BodySegment::Attachment, BodySegment::Attachment], no_titles());
    let block = render_message(&m, false);
    assert!(block.contains("\\fbox{2 Attachments}"));
    assert!(!block.contains("\\enskip"));
    assert_eq!(
        block,
        "\\markright{September  5, 2023}\n\\rightmsg{\\fbox{2 Attachments}}\n\n"
    );
}

#[test]
fn single_attachment_badge_is_singular() {
    let m = prepared(
        true,
        vec![BodySegment::Text("here".to_string()), BodySegment::Attachment],
        no_titles(),
    );
    let block = render_message(&m, false);
    assert!(block.contains("here\\enskip\\fbox{1 Attachment}"));
    assert!(block.starts_with("\\markright{September  5, 2023}\n\\leftmsg{"));
}

#[test]
fn spacing_directive_follows_the_sender_rule() {
    let msgs = vec![
        prepared(true, vec![BodySegment::Text("a".to_string())], no_titles()),
        prepared(true, vec![BodySegment::Text("b".to_string())], no_titles()),
        prepared(false, vec![BodySegment::Text("c".to_string())], no_titles()),
    ];
    let doc = render_chapter(2023, 9, &msgs);
    assert!(doc.starts_with("\\chapter{September 2023}\n\n"));
    let blocks: Vec<&str> = doc.split("\\markright").collect();
    // blocks[0] is the heading; messages follow in order
    assert!(!blocks[1].contains("\\insertextraspace"));
    assert!(blocks[2].contains("\\insertextraspace"));
    assert!(!blocks[3].contains("\\insertextraspace"));
}

#[test]
fn first_message_of_a_chapter_never_gets_spacing() {
    let first = vec![prepared(true, vec![BodySegment::Text("a".to_string())], no_titles())];
    let next_chapter = vec![prepared(true, vec![BodySegment::Text("b".to_string())], no_titles())];
    let doc1 = render_chapter(2023, 9, &first);
    let doc2 = render_chapter(2023, 10, &next_chapter);
    assert!(!doc1.contains("\\insertextraspace"));
    assert!(!doc2.contains("\\insertextraspace"));
}

fn sample_config(preface: Option<&str>) -> ManuscriptConfig {
    ManuscriptConfig {
        title: "Our Story".to_string(),
        copyright: "Copyright 2023".to_string(),
        dedication_title: "For You".to_string(),
        dedication_message: "Always".to_string(),
        preface: preface.map(|p| p.to_string()),
    }
}

const TEMPLATE: &str = "\\title{iMessage Book}\nALL RIGHTS RESERVED\n\\begin{center}\n  \\textit{Dedicated to you.}\n\\end{center}\n\\mainmatter\n";

#[test]
fn root_document_substitutes_front_matter() {
    let names = vec!["ch-2023-09".to_string(), "ch-2023-10".to_string()];
    let doc = build_root_document(TEMPLATE, &sample_config(None), &names);
    assert!(doc.contains("\\title{Our Story}"));
    assert!(doc.contains("Copyright 2023"));
    assert!(!doc.contains("iMessage Book"));
    assert!(!doc.contains("ALL RIGHTS RESERVED"));
    assert!(doc.contains("\\textit{For You}"));
    assert!(doc.contains("\\textit{Always}"));
    assert!(!doc.contains("Dedicated to you."));
    assert!(doc.contains("\\include{ch-2023-09}\n\\include{ch-2023-10}\n"));
    assert!(doc.ends_with("\\end{document}"));
}

#[test]
fn preface_is_inserted_before_the_main_body_marker() {
    let doc = build_root_document(TEMPLATE, &sample_config(Some("Dear reader.")), &Vec::new());
    let section = "\\chapter*{Preface}\nDear reader.\n\\mainmatter\n";
    let preface_at = doc.find(section).unwrap();
    let first_marker = doc.find("\\mainmatter").unwrap();
    assert_eq!(first_marker, preface_at + "\\chapter*{Preface}\nDear reader.\n".len());
    assert!(doc[preface_at + section.len()..].contains("\\mainmatter"));
}

#[test]
fn zero_chapters_still_yield_a_valid_root_document() {
    let doc = build_root_document(TEMPLATE, &sample_config(None), &Vec::new());
    assert!(!doc.contains("\\include{"));
    assert!(doc.contains("\\title{Our Story}"));
    assert!(doc.ends_with("\\end{document}"));
}

#[test]
fn rendered_block_sanitizes_text_and_annotates_links() {
    let titles = vec![("https://example.com/a".to_string(), Some("A Page".to_string()))];
    let m = PreparedMessage {
        is_from_me: true,
        segments: vec![BodySegment::Text("50% off at https://example.com/a".to_string())],
        year: 2023,
        month: 10,
        day: 10,
        titles,
    };
    let block = render_message(&m, true);
    assert_eq!(
        block,
        "\\markright{October 10, 2023}\n\\insertextraspace\n\\leftmsg{50\\% off at (link: example.com, A Page)}\n\n"
    );
}

#[test]
fn empty_body_renders_an_empty_bubble() {
    let m = PreparedMessage {
        is_from_me: false,
        segments: Vec::new(),
        year: 2023,
        month: 9,
        day: 5,
        titles: Vec::new(),
    };
    let block = render_message(&m, false);
    assert_eq!(block, "\\markright{September  5, 2023}\n\\rightmsg{}\n\n");
}

#[test]
fn attachment_badge_handles_multi_digit_counts() {
    let segs: Vec<BodySegment> = (0..12).map(|_| BodySegment::Attachment).collect();
    let m = prepared(false, segs, no_titles());
    let block = render_message(&m, false);
    assert!(block.contains("\\fbox{12 Attachments}"));
}

#[test]
fn unicode_whitespace_delimits_hyperlinks() {
    // a no-break space ends the hyperlink run, as any whitespace does
    assert_eq!(
        sanitize("x https://a.b\u{00A0}tail", &no_titles()),
        "x (link: a.b)\u{00A0}tail"
    );
    // so does the line-separator code point
    assert_eq!(
        sanitize("x https://a.b\u{2028}tail", &no_titles()),
        "x (link: a.b)\u{2028}tail"
    );
    let urls = message_urls("see http://host/p\u{205F}q");
    assert_eq!(urls, vec!["http://host/p".to_string()]);
}
