use zh_manhua::kxmanhua::{
    chapter_list, clean_author, has_more, manga_details, manga_details_url, manga_list,
    manga_list_url, page_list, page_list_url, parse_manga_cards, parse_manga_id, parse_status,
    pick_description, to_absolute, ChapterLink, MangaCard, MangaDetailsPage,
};
use zh_manhua::model::{
    search_query, Filter, FilterKind, MangaContentRating, MangaStatus, MangaViewer, SourceError,
};

fn card(href: &str, title: &str, set_bg: &str, image_src: &str) -> Option<MangaCard> {
    Some(MangaCard {
        href: href.to_string(),
        title: title.to_string(),
        set_bg: set_bg.to_string(),
        image_src: image_src.to_string(),
    })
}

#[test]
fn manga_id_follows_the_last_manga_segment() {
    assert_eq!(parse_manga_id("/manga/abc123/"), "abc123");
    assert_eq!(parse_manga_id("https://kxmanhua.com/manga/xyz"), "xyz");
    assert_eq!(parse_manga_id("/manga/one/two/"), "one");
    assert_eq!(parse_manga_id("/a/manga/b/manga/c/d"), "c");
    assert_eq!(parse_manga_id("/x/manga/p/manga/q/r"), "q");
}

#[test]
fn manga_id_uses_non_overlapping_matches() {
    // "/manga/manga/" splits at its first "/manga/" only, leaving "manga/".
    assert_eq!(parse_manga_id("/manga/manga/"), "manga");
    assert_eq!(parse_manga_id("/q/manga/u/manga/v"), "v");
}

#[test]
fn manga_id_without_marker_is_the_first_segment() {
    assert_eq!(parse_manga_id("abc/def"), "abc");
    assert_eq!(parse_manga_id("/abc"), "");
    assert_eq!(parse_manga_id(""), "");
}

#[test]
fn manga_id_never_holds_a_slash() {
    for href in ["/manga/a/b", "/manga//", "x/manga/y/manga/z/", "////", "/manga/manga/manga/"] {
        assert!(!parse_manga_id(href).contains('/'));
    }
}

#[test]
fn relative_urls_are_put_behind_the_site() {
    assert_eq!(to_absolute("/manga/1"), "https://kxmanhua.com/manga/1");
    assert_eq!(to_absolute("http://a.b/c"), "http://a.b/c");
    assert_eq!(to_absolute("https://a.b/c"), "https://a.b/c");
    assert_eq!(to_absolute("httpx"), "https://kxmanhua.comhttpx");
    assert_eq!(to_absolute(""), "https://kxmanhua.com");
}

#[test]
fn absolute_is_idempotent_on_examples() {
    for u in ["/x", "http://a", "https://b", "", "ftp://c"] {
        let once = to_absolute(u);
        assert_eq!(to_absolute(&once), once);
        assert!(once.starts_with("http://") || once.starts_with("https://"));
    }
}

#[test]
fn list_url_for_library_and_search() {
    assert_eq!(
        manga_list_url("", "", 2),
        "https://kxmanhua.com/manga/library?type=0&complete=1&page=2&orderby=1"
    );
    assert_eq!(
        manga_list_url("\u{6d77}", "%E6%B5%B7", 1),
        "https://kxmanhua.com/manga/search?keyword=%E6%B5%B7&page=1"
    );
    assert_eq!(
        manga_list_url("a", "a", -3),
        "https://kxmanhua.com/manga/search?keyword=a&page=-3"
    );
    assert_eq!(
        manga_list_url("", "", 1234567),
        "https://kxmanhua.com/manga/library?type=0&complete=1&page=1234567&orderby=1"
    );
}

#[test]
fn more_pages_when_the_next_page_is_linked() {
    assert!(has_more("<a href=\"?page=3\">3</a>", 2));
    assert!(!has_more("<a href=\"?page=2\">2</a>", 2));
    assert!(has_more("page=10", 9));
    assert!(has_more("page=100", 9));
    assert!(!has_more("", 0));
    assert!(has_more("page=0", -1));
}

#[test]
fn cards_become_listed_manga() {
    let cards = vec![
        card("/manga/abc/", "Title A", "cover-a.jpg", "img-a.jpg"),
        None,
        card("/other/abc", "No manga link", "", ""),
        card("/manga/", "Empty id", "", ""),
        card("/manga/def", "", "", ""),
        card("/manga/ghi", "Title G", "", "img-g.jpg"),
    ];
    let list = parse_manga_cards(&cards);
    assert_eq!(list.len(), 2);
    assert_eq!(list[0].id, "abc");
    assert_eq!(list[0].title, "Title A");
    assert_eq!(list[0].cover, "cover-a.jpg");
    assert_eq!(list[1].id, "ghi");
    assert_eq!(list[1].cover, "img-g.jpg");
    assert_eq!(list[1].status, MangaStatus::Unknown);
    assert_eq!(list[1].nsfw, MangaContentRating::Safe);
    assert_eq!(list[1].viewer, MangaViewer::Default);
    assert!(list[1].categories.is_empty());
    assert_eq!(list[1].url, "");
}

#[test]
fn listing_page_combines_cards_and_next_link() {
    let cards = vec![card("/manga/abc/", "A", "", "")];
    let r = manga_list(&cards, "x page=5 y", 4);
    assert_eq!(r.manga.len(), 1);
    assert!(r.has_more);
    let r = manga_list(&Vec::new(), "", 4);
    assert!(r.manga.is_empty());
    assert!(!r.has_more);
}

#[test]
fn query_is_the_last_title_filter() {
    let filters = vec![
        Filter { kind: FilterKind::Other, value: None },
        Filter { kind: FilterKind::Title, value: Some("first".to_string()) },
        Filter { kind: FilterKind::Title, value: Some("second".to_string()) },
        Filter { kind: FilterKind::Other, value: Some("ignored".to_string()) },
    ];
    assert_eq!(search_query(&filters), Ok("second".to_string()));
    assert_eq!(search_query(&Vec::new()), Ok(String::new()));
}

#[test]
fn title_filter_without_text_is_an_error() {
    let filters = vec![
        Filter { kind: FilterKind::Title, value: None },
        Filter { kind: FilterKind::Title, value: Some("later".to_string()) },
    ];
    assert_eq!(search_query(&filters), Err(SourceError::FilterValueNotText));
}

#[test]
fn details_url_of_a_manga() {
    assert_eq!(manga_details_url("abc"), "https://kxmanhua.com/manga/abc");
}

#[test]
fn author_label_is_removed() {
    assert_eq!(clean_author("\u{4f5c}\u{8005}\u{ff1a} Oda "), "Oda");
    assert_eq!(clean_author("\u{4f5c}\u{8005}:Kishimoto"), "Kishimoto");
    assert_eq!(clean_author("  plain\t"), "plain");
    assert_eq!(clean_author("\u{4f5c}\u{8005}: A \u{4f5c}\u{8005}\u{ff1a}B"), "A B");
    assert_eq!(clean_author("\u{3000}X\u{a0}"), "X");
}

#[test]
fn status_from_label() {
    assert_eq!(parse_status("\u{8fde}\u{8f7d}\u{4e2d}"), MangaStatus::Ongoing);
    assert_eq!(parse_status("ONGOING"), MangaStatus::Ongoing);
    assert_eq!(parse_status("\u{5df2}\u{5b8c}\u{7ed3}"), MangaStatus::Completed);
    assert_eq!(parse_status("Completed"), MangaStatus::Completed);
    assert_eq!(parse_status("completed, ongoing"), MangaStatus::Ongoing);
    assert_eq!(parse_status("hiatus"), MangaStatus::Unknown);
    assert_eq!(parse_status(""), MangaStatus::Unknown);
}

#[test]
fn description_is_first_nonblank_paragraph() {
    let ps = vec!["  ".to_string(), "\n".to_string(), " Story ".to_string(), "More".to_string()];
    assert_eq!(pick_description(&ps, "meta"), " Story ");
    let blank = vec![" ".to_string()];
    assert_eq!(pick_description(&blank, "meta"), "meta");
    assert_eq!(pick_description(&Vec::new(), ""), "");
}

#[test]
fn details_of_a_manga() {
    let page = MangaDetailsPage {
        title: "T".to_string(),
        cover: "c.jpg".to_string(),
        author_text: Some("\u{4f5c}\u{8005}\u{ff1a}Au".to_string()),
        categories: vec!["x".to_string(), "y".to_string()],
        status_text: "ongoing".to_string(),
        paragraphs: vec!["".to_string(), "Desc".to_string()],
        meta_description: "Meta".to_string(),
    };
    let m = manga_details("id1".to_string(), page);
    assert_eq!(m.id, "id1");
    assert_eq!(m.title, "T");
    assert_eq!(m.cover, "c.jpg");
    assert_eq!(m.author, "Au");
    assert_eq!(m.artist, "");
    assert_eq!(m.description, "Desc");
    assert_eq!(m.url, "https://kxmanhua.com/manga/id1");
    assert_eq!(m.categories, vec!["x".to_string(), "y".to_string()]);
    assert_eq!(m.status, MangaStatus::Ongoing);
    assert_eq!(m.nsfw, MangaContentRating::Nsfw);
    assert_eq!(m.viewer, MangaViewer::Scroll);

    let page = MangaDetailsPage {
        title: String::new(),
        cover: String::new(),
        author_text: None,
        categories: Vec::new(),
        status_text: String::new(),
        paragraphs: Vec::new(),
        meta_description: "Meta".to_string(),
    };
    let m = manga_details("z".to_string(), page);
    assert_eq!(m.author, "");
    assert_eq!(m.description, "Meta");
    assert_eq!(m.status, MangaStatus::Unknown);
}

#[test]
fn chapters_are_numbered_from_the_end() {
    let links = vec![
        Some(ChapterLink { href: "/manga/a/detail/3".to_string(), text: " Ch 3 ".to_string() }),
        None,
        Some(ChapterLink { href: "/manga/a/other/2".to_string(), text: "skip".to_string() }),
        Some(ChapterLink {
            href: "https://kxmanhua.com/manga/a/detail/1".to_string(),
            text: "Ch 1".to_string(),
        }),
    ];
    let chapters = chapter_list(&links);
    assert_eq!(chapters.len(), 2);
    assert_eq!(chapters[0].id, "/manga/a/detail/3");
    assert_eq!(chapters[0].title, "Ch 3");
    assert_eq!(chapters[0].number, 4);
    assert_eq!(chapters[0].url, "https://kxmanhua.com/manga/a/detail/3");
    assert_eq!(chapters[1].number, 1);
    assert_eq!(chapters[1].url, "https://kxmanhua.com/manga/a/detail/1");
    assert!(chapters[0].number > chapters[1].number);
}

#[test]
fn page_list_url_keeps_http_addresses() {
    assert_eq!(page_list_url("http://x/y".to_string()), "http://x/y");
    assert_eq!(page_list_url("httpfoo".to_string()), "httpfoo");
    assert_eq!(page_list_url("/manga/a/detail/1".to_string()), "https://kxmanhua.com/manga/a/detail/1");
}

#[test]
fn pages_are_webtoon_images() {
    let srcs = vec![
        Some("https://cdn.x/webtoon/content/1.jpg".to_string()),
        None,
        Some("/webtoon/content/2.jpg".to_string()),
        Some("https://cdn.x/ads/3.jpg".to_string()),
        Some("http://cdn.x/webtoon/content/4.jpg".to_string()),
    ];
    let pages = page_list(&srcs);
    assert_eq!(pages.len(), 2);
    assert_eq!(pages[0].index, 0);
    assert_eq!(pages[0].url, "https://cdn.x/webtoon/content/1.jpg");
    assert_eq!(pages[1].index, 4);
    assert_eq!(pages[1].url, "http://cdn.x/webtoon/content/4.jpg");
}

#[test]
fn chapter_pages_are_asked_at_the_chapter_url() {
    let links = vec![
        Some(ChapterLink { href: "/manga/a/detail/2".to_string(), text: "2".to_string() }),
        Some(ChapterLink { href: "https://kxmanhua.com/manga/a/detail/1".to_string(), text: "1".to_string() }),
    ];
    for c in chapter_list(&links) {
        assert_eq!(page_list_url(c.id.clone()), c.url);
    }
}
