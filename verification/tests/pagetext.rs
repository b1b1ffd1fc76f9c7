use ksbd_bot::page_sender::{nav_btns, resize_text, send_plan, translate_url, NavAction, SendStep};
use ksbd_bot::scraper_page::{build_page, parse_page};
use ksbd_bot::{GetPageError, KsbdPage, PageToSend, SubsState};

fn page(idx: usize, url: &str, next: Option<&str>) -> KsbdPage {
    KsbdPage {
        idx,
        title: format!("title{}", idx),
        url: url.to_string(),
        imgs: vec![format!("img{}.png", idx)],
        text: format!("text{}", idx),
        next: next.map(|s| s.to_string()),
    }
}

#[test]
fn prepared_page_reads_escapes_back() {
    let p = KsbdPage {
        idx: 3,
        title: "  A%09B%0D%0AC  ".to_string(),
        url: "u3".to_string(),
        imgs: vec!["a.png".to_string(), "b.png".to_string()],
        text: "one%09x%0D%0A%0D%0A  two  %0D%0A".to_string(),
        next: Some("u4".to_string()),
    };
    let s = PageToSend::fresh_page(p);
    assert_eq!(s.idx, 3);
    assert_eq!(s.title.as_deref(), Some("A\tB\nC"));
    assert_eq!(s.imgs, vec!["a.png", "b.png"]);
    // blocks: tab escape undone, split at the paragraph escapes, trimmed,
    // empties dropped
    assert_eq!(s.text, vec!["one\tx", "two"]);
    assert!(s.is_new);
    assert!(s.has_next);
}

#[test]
fn empty_title_becomes_none() {
    let p = KsbdPage {
        idx: 0,
        title: "   ".to_string(),
        url: "u".to_string(),
        imgs: vec!["a.png".to_string()],
        text: String::new(),
        next: None,
    };
    let s = PageToSend::old_page(p);
    assert_eq!(s.title, None);
    assert!(!s.is_new);
    assert!(!s.has_next);
    assert_eq!(s.text, Vec::<String>::new());
}

#[test]
fn image_files_are_keyed_by_page_and_position() {
    let s = PageToSend::old_page(KsbdPage {
        idx: 12,
        title: "t".to_string(),
        url: "u".to_string(),
        imgs: vec!["x".to_string(), "y".to_string(), "z".to_string()],
        text: String::new(),
        next: None,
    });
    assert_eq!(
        s.img_files("/data"),
        vec!["/data/12-0.png", "/data/12-1.png", "/data/12-2.png"]
    );
}

#[test]
fn resize_glues_blocks_under_the_limit() {
    let blocks = vec!["aaaa".to_string(), "bbbb".to_string(), "cccc".to_string()];
    assert_eq!(resize_text(&blocks, 12), vec!["aaaa\n\nbbbb", "cccc"]);
    assert_eq!(resize_text(&blocks, 100), vec!["aaaa\n\nbbbb\n\ncccc"]);
    assert_eq!(resize_text(&blocks, 3), vec!["aaaa", "bbbb", "cccc"]);
    assert_eq!(resize_text(&Vec::new(), 10), Vec::<String>::new());
}

#[test]
fn translate_address_percent_encodes() {
    assert_eq!(
        translate_url("so long"),
        "https://translate.google.com/?sl=en&tl=ru&text=so%20long&op=translate"
    );
}

#[test]
fn nav_buttons_at_the_edges() {
    let mut s = PageToSend::old_page(page(0, "u0", None));
    assert_eq!(nav_btns(&s), Vec::<NavAction>::new());
    s = PageToSend::old_page(page(0, "u0", Some("u1")));
    assert_eq!(nav_btns(&s), vec![NavAction::Next(1)]);
    s = PageToSend::old_page(page(5, "u5", Some("u6")));
    assert_eq!(nav_btns(&s), vec![NavAction::Prev(4), NavAction::Next(6)]);
    s = PageToSend::old_page(page(5, "u5", None));
    assert_eq!(nav_btns(&s), vec![NavAction::Prev(4)]);
}

#[test]
fn plan_without_text_puts_nav_on_last_document() {
    let s = PageToSend::fresh_page(KsbdPage {
        idx: 1,
        title: "T".to_string(),
        url: "u".to_string(),
        imgs: vec!["a".to_string(), "b".to_string()],
        text: String::new(),
        next: None,
    });
    let plan = send_plan(&s, "/d");
    assert_eq!(
        plan,
        vec![
            SendStep::Banner,
            SendStep::Title("T".to_string()),
            SendStep::Doc("/d/1-0.png".to_string()),
            SendStep::DocWithNav("/d/1-1.png".to_string()),
        ]
    );
}

#[test]
fn plan_with_text_puts_nav_on_last_text() {
    let s = PageToSend::old_page(KsbdPage {
        idx: 2,
        title: String::new(),
        url: "u".to_string(),
        imgs: vec!["a".to_string()],
        text: "first%0D%0A%0D%0Asecond".to_string(),
        next: None,
    });
    let plan = send_plan(&s, "/d");
    assert_eq!(
        plan,
        vec![
            SendStep::Doc("/d/2-0.png".to_string()),
            SendStep::TextWithNav("first\n\nsecond".to_string()),
        ]
    );
    let short = PageToSend::old_page(KsbdPage {
        idx: 2,
        title: String::new(),
        url: "u".to_string(),
        imgs: vec!["a".to_string()],
        text: "x".to_string(),
        next: None,
    });
    let plan2 = send_plan(&short, "/d");
    assert_eq!(
        plan2,
        vec![
            SendStep::Doc("/d/2-0.png".to_string()),
            SendStep::TextWithNav("x".to_string()),
        ]
    );
}

#[test]
fn build_assembles_and_escapes() {
    let r = build_page(
        4,
        "u4",
        vec![
            (None, Some("a.png".to_string())),
            (Some("The\tTitle".to_string()), Some("b.png".to_string())),
            (Some("ignored".to_string()), None),
        ],
        vec!["line\tone".to_string(), "line\ntwo".to_string()],
        Some("u5".to_string()),
    )
    .unwrap();
    assert_eq!(r.idx, 4);
    assert_eq!(r.url, "u4");
    assert_eq!(r.title, "The%09Title");
    assert_eq!(r.imgs, vec!["a.png", "b.png"]);
    assert_eq!(r.text, "line%09one%0D%0A%0D%0Aline%0D%0Atwo");
    assert_eq!(r.next.as_deref(), Some("u5"));
}

#[test]
fn build_defaults_the_title() {
    let r = build_page(0, "u", vec![(None, Some("a".to_string()))], Vec::new(), None).unwrap();
    assert_eq!(r.title, "NO TITLE");
    assert_eq!(r.text, "");
}

#[test]
fn build_without_any_image_fails() {
    let r = build_page(0, "u", vec![(Some("t".to_string()), None)], Vec::new(), None);
    assert_eq!(r, Err(GetPageError::NoImg("u".to_string())));
    let r2 = build_page(0, "u", Vec::new(), Vec::new(), None);
    assert!(r2.is_err());
}

#[test]
fn parse_extracts_the_page_from_markup() {
    let html = "<html><body>\
        <div id=\"comic\"><img src=\"img1.png\" title=\"T1\"><img src=\"img2.png\"></div>\
        <div id=\"sidebar-over-comic\"><div><table><tbody><tr>\
        <td class=\"comic_navi_right\">\
        <a class=\"navi comic-nav-next navi-next\" href=\"next.html\">Next</a>\
        </td></tr></tbody></table></div></div>\
        <div class=\"entry\"><p>Hello\tworld</p><p>Second</p></div>\
        </body></html>";
    let p = parse_page(7, "here.html", html).unwrap();
    assert_eq!(p.idx, 7);
    assert_eq!(p.url, "here.html");
    assert_eq!(p.title, "T1");
    assert_eq!(p.imgs, vec!["img1.png", "img2.png"]);
    assert_eq!(p.next.as_deref(), Some("next.html"));
    assert_eq!(p.text, "Hello%09world%0D%0A%0D%0ASecond");
}

#[test]
fn parse_without_comic_image_fails() {
    let html = "<html><body><div class=\"entry\"><p>words</p></div></body></html>";
    match parse_page(0, "u", html) {
        Err(GetPageError::NoImg(u)) => assert_eq!(u, "u"),
        other => panic!("unexpected {:?}", other),
    }
}

#[test]
fn escaping_round_trips() {
    let chars: Vec<char> = "a\tb\nc%d".chars().collect();
    let esc = ksbd_bot::text::escape_chars(&chars);
    let esc_s: String = esc.iter().collect();
    assert_eq!(esc_s, "a%09b%0D%0Ac%d");
    let back = ksbd_bot::text::unescape_chars(&esc);
    assert_eq!(back, chars);
    // a text that already holds a literal escape sequence cannot round
    // trip: once stored it reads back as the character it spells
    let tricky: Vec<char> = "x%09y".chars().collect();
    let esc2 = ksbd_bot::text::escape_chars(&tricky);
    let back2 = ksbd_bot::text::unescape_chars(&esc2);
    let back2_s: String = back2.iter().collect();
    assert_eq!(back2_s, "x\ty");
}

#[test]
fn error_messages_name_the_address() {
    assert_eq!(GetPageError::no_img("u").message(), "No img (u)");
    assert_eq!(
        GetPageError::req_err("u", "boom".to_string()).message(),
        "Failed to get url (u): boom"
    );
    assert_eq!(
        GetPageError::img_err("u", "bad".to_string()).message(),
        "Failed to get img (u): bad"
    );
}

#[test]
fn subscribers_are_added_once() {
    let mut s = SubsState::default();
    s.add(5);
    s.add(-7);
    s.add(5);
    assert_eq!(s.len(), 2);
    assert_eq!(s.chat_ids(), vec![5, -7]);
}

#[test]
fn subscriber_codec_round_trip() {
    let mut s = SubsState::default();
    s.add(123);
    s.add(-456);
    let text = s.encode();
    assert_eq!(text, "123\t0\n-456\t0");
    let back = SubsState::decode(&text).unwrap();
    assert_eq!(back.encode(), text);
    assert_eq!(back.chat_ids(), vec![123, -456]);
}

#[test]
fn subscriber_decode_keeps_last_entry_per_identity() {
    let back = SubsState::decode("9\t1\n8\t0\n9\t4").unwrap();
    assert_eq!(back.encode(), "9\t4\n8\t0");
}

#[test]
fn subscriber_decode_rejects_malformed_lines() {
    assert!(SubsState::decode("").is_err());
    assert!(SubsState::decode("justonefield").is_err());
    assert!(SubsState::decode("12\tx").is_err());
    assert!(SubsState::decode("notanumber\t0").is_err());
}
