use zh_manhua::model::{MangaContentRating, MangaStatus, MangaViewer};
use zh_manhua::nnhanman::{
    absolute_url, chapter_list, extract_manga_id, has_more, looks_like_image, manga_details,
    manga_details_url, manga_list, manga_list_url, page_list, page_list_url, parse_manga_items,
    ChapterLink, MangaDetailsPage, MangaItem, PageImage,
};

fn item(fields: [&str; 9]) -> Option<MangaItem> {
    Some(MangaItem {
        image_link_href: fields[0].to_string(),
        title_link_href: fields[1].to_string(),
        link_href: fields[2].to_string(),
        image_src: fields[3].to_string(),
        image_data_src: fields[4].to_string(),
        image_data_original: fields[5].to_string(),
        image_link_title: fields[6].to_string(),
        title_link_text: fields[7].to_string(),
        image_alt: fields[8].to_string(),
    })
}

fn link(href: &str, title: &str, text: &str) -> Option<ChapterLink> {
    Some(ChapterLink { href: href.to_string(), title: title.to_string(), text: text.to_string() })
}

fn image(data_original: &str, data_src: &str, src: &str) -> Option<PageImage> {
    Some(PageImage {
        data_original: data_original.to_string(),
        data_src: data_src.to_string(),
        src: src.to_string(),
    })
}

#[test]
fn manga_id_drops_html_suffix() {
    assert_eq!(extract_manga_id("/comic/abc.html"), "abc");
    assert_eq!(extract_manga_id("https://nnhanman.xyz/comic/foo/chapter-1.html"), "foo");
    assert_eq!(extract_manga_id("/comic/a.htmlb.html"), "ab");
    assert_eq!(extract_manga_id("nothing"), "nothing");
    assert_eq!(extract_manga_id("/comic/.html"), "");
}

#[test]
fn manga_id_replacement_is_single_pass() {
    // Taking out ".html" once may leave a new ".html" behind.
    assert_eq!(extract_manga_id("/comic/.ht.htmlml"), ".html");
    assert!(!extract_manga_id("/comic/x.html/y").contains('/'));
}

#[test]
fn absolute_urls_for_paths() {
    assert_eq!(absolute_url("//img.x/a.jpg"), "https://img.x/a.jpg");
    assert_eq!(absolute_url("/comic/a.html"), "https://nnhanman.xyz/comic/a.html");
    assert_eq!(absolute_url("http://a"), "http://a");
    assert_eq!(absolute_url("https://a"), "https://a");
    for p in ["//x", "/y", "z", "", "https://q"] {
        let once = absolute_url(p);
        assert_eq!(absolute_url(&once), once);
    }
}

#[test]
fn images_are_recognised() {
    assert!(looks_like_image("https://cdn.x/1.JPG"));
    assert!(looks_like_image("http://cdn.x/a.webp?x=1"));
    assert!(looks_like_image("https://cdn.x/a.jpeg"));
    assert!(looks_like_image("https://cdn.x/a.gif"));
    assert!(!looks_like_image("HTTPS://cdn.x/1.jpg"));
    assert!(!looks_like_image("//cdn.x/1.jpg"));
    assert!(!looks_like_image("https://mc.yandex.ru/watch/1.png"));
    assert!(!looks_like_image("https://x/images/logo-big.png"));
    assert!(!looks_like_image("https://x/LOGO.png"));
    assert!(looks_like_image("https://x/mylogo.png"));
    assert!(!looks_like_image("https://x/favicon.ico"));
    assert!(!looks_like_image("https://x/page.html"));
}

#[test]
fn list_url_for_updates_and_search() {
    assert_eq!(manga_list_url("", "", 1), Some("https://nnhanman.xyz/update".to_string()));
    assert_eq!(manga_list_url("", "", 0), Some("https://nnhanman.xyz/update".to_string()));
    assert_eq!(manga_list_url("", "", 2), None);
    assert_eq!(
        manga_list_url("\u{6d77}", "%E6%B5%B7", 3),
        Some("https://nnhanman.xyz/search/%E6%B5%B7/page/3".to_string())
    );
}

#[test]
fn more_pages_only_for_searches() {
    assert!(has_more("q", "/page/3", 2));
    assert!(!has_more("q", "/page/2", 2));
    assert!(!has_more("", "/page/3", 2));
    assert!(!has_more("", "", i32::MAX));
}

#[test]
fn items_become_listed_manga() {
    let items = vec![
        item(["/comic/a.html", "", "", "//img/a.jpg", "", "", "A", "", ""]),
        None,
        item(["", "/comic/b.html", "", "", "/b.jpg", "", "", "B", ""]),
        item(["", "", "/comic/c.html", "", "", "", "", "", "C"]),
        item(["/other/d", "", "", "", "", "", "D", "", ""]),
        item(["/comic/.html", "", "", "", "", "", "E", "", ""]),
        item(["/comic/f.html", "", "", "", "", "", "", "", ""]),
        item(["", "", "", "", "", "https://o/g.png", "G", "", ""]),
    ];
    let list = parse_manga_items(&items);
    assert_eq!(list.len(), 3);
    assert_eq!(list[0].id, "a");
    assert_eq!(list[0].title, "A");
    assert_eq!(list[0].cover, "https://img/a.jpg");
    assert_eq!(list[1].id, "b");
    assert_eq!(list[1].title, "B");
    assert_eq!(list[1].cover, "https://nnhanman.xyz/b.jpg");
    assert_eq!(list[2].id, "c");
    assert_eq!(list[2].title, "C");
    assert_eq!(list[2].cover, "");
    assert_eq!(list[2].status, MangaStatus::Unknown);
}

#[test]
fn updates_after_first_page_are_empty() {
    let items = vec![item(["/comic/a.html", "", "", "", "", "", "A", "", ""])];
    let r = manga_list(&items, "", "/page/3", 2);
    assert!(r.manga.is_empty());
    assert!(!r.has_more);
    let r = manga_list(&items, "", "/page/2", 1);
    assert_eq!(r.manga.len(), 1);
    assert!(!r.has_more);
    let r = manga_list(&items, "q", "/page/3", 2);
    assert_eq!(r.manga.len(), 1);
    assert!(r.has_more);
}

#[test]
fn nn_details_of_a_manga() {
    assert_eq!(manga_details_url("abc"), "https://nnhanman.xyz/comic/abc.html");
    let page = MangaDetailsPage {
        cover: "c.jpg".to_string(),
        title: "T".to_string(),
        author_text: Some("  Au \n".to_string()),
        categories: vec!["x".to_string()],
        description_text: "\n Desc ".to_string(),
    };
    let m = manga_details("abc".to_string(), page);
    assert_eq!(m.author, "Au");
    assert_eq!(m.description, "Desc");
    assert_eq!(m.url, "https://nnhanman.xyz/comic/abc.html");
    assert_eq!(m.categories, vec!["x".to_string()]);
    assert_eq!(m.status, MangaStatus::Unknown);
    assert_eq!(m.nsfw, MangaContentRating::Nsfw);
    assert_eq!(m.viewer, MangaViewer::Scroll);
    let page = MangaDetailsPage {
        cover: String::new(),
        title: String::new(),
        author_text: None,
        categories: Vec::new(),
        description_text: String::new(),
    };
    assert_eq!(manga_details("z".to_string(), page).author, "");
}

#[test]
fn chapters_are_unique_and_numbered_from_the_end() {
    let links = vec![
        link("/comic/a/chapter-3.html", " Three ", "3"),
        link("comic/a/chapter-3.html", "dup", "dup"),
        None,
        link("/comic/a/intro.html", "", "x"),
        link("//comic/a/chapter-1.html", "", " One "),
    ];
    let chapters = chapter_list(&links);
    assert_eq!(chapters.len(), 2);
    assert_eq!(chapters[0].id, "comic/a/chapter-3.html");
    assert_eq!(chapters[0].title, "Three");
    assert_eq!(chapters[0].number, 5);
    assert_eq!(chapters[0].url, "https://nnhanman.xyz/comic/a/chapter-3.html");
    assert_eq!(chapters[1].id, "comic/a/chapter-1.html");
    assert_eq!(chapters[1].title, "One");
    assert_eq!(chapters[1].number, 1);
}

#[test]
fn page_list_url_for_chapter_ids() {
    assert_eq!(page_list_url("https://x/y".to_string()), "https://x/y");
    assert_eq!(page_list_url("/comic/a/chapter-1.html".to_string()), "https://nnhanman.xyz/comic/a/chapter-1.html");
    assert_eq!(page_list_url("comic/a/chapter-1.html".to_string()), "https://nnhanman.xyz/comic/a/chapter-1.html");
    assert_eq!(page_list_url("//cdn/x".to_string()), "https://cdn/x");
}

#[test]
fn pages_keep_image_positions() {
    let images = vec![
        image("https://c/1.jpg", "https://c/ignored.jpg", ""),
        None,
        image("", "https://c/logo.png", "https://c/2.jpg"),
        image("", "", "https://c/3.png"),
        image("", "", "/rel/4.jpg"),
    ];
    let pages = page_list(&images);
    assert_eq!(pages.len(), 2);
    assert_eq!(pages[0].index, 0);
    assert_eq!(pages[0].url, "https://c/1.jpg");
    assert_eq!(pages[1].index, 3);
    assert_eq!(pages[1].url, "https://c/3.png");
}

#[test]
fn chapter_pages_are_asked_at_the_chapter_url_nn() {
    let links = vec![
        link("/comic/a/chapter-2.html", "2", ""),
        link("comic/a/chapter-1.html", "1", ""),
    ];
    for c in chapter_list(&links) {
        assert_eq!(page_list_url(c.id.clone()), c.url);
    }
}

#[test]
fn chapter_ids_are_distinct() {
    let links = vec![
        link("/comic/a/chapter-1.html", "", "a"),
        link("//comic/a/chapter-1.html", "", "b"),
        link("///comic/a/chapter-1.html", "", "c"),
        link("/comic/a/chapter-2.html", "", "d"),
    ];
    let chapters = chapter_list(&links);
    assert_eq!(chapters.len(), 2);
    assert_eq!(chapters[0].title, "a");
    assert_eq!(chapters[0].number, 4);
    assert_eq!(chapters[1].title, "d");
    assert_eq!(chapters[1].number, 1);
}
