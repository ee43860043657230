//! The rules of the catalogue at nnhanman.xyz: where its pages are, and what
//! of the values read from them becomes comics, chapters and pages.
use vstd::prelude::*;

use crate::model::{
    chapters_view, listed_manga, mangas_view, pages_view, strings_view, Chapter, ChapterView,
    Manga, MangaContentRating, MangaPageResult, MangaStatus, MangaView, MangaViewer, Page,
    PageView,
};
use crate::text::{
    ascii_lower, ascii_lower_exec, before_char, before_char_exec, chars_of, contains_exec,
    decimal, decimal_exec, ends_with, ends_with_exec, has_substring, join, replace_all,
    replace_all_exec, split_last, split_last_exec, starts_with, starts_with_exec, string_of,
    trim, trim_exec, trim_start_char, trim_start_char_exec,
};

verus! {

/// The catalogue's address.
pub const WWW_URL: &'static str = "https://nnhanman.xyz";

/// The browser that requests to the catalogue present themselves as.
pub const USER_AGENT: &'static str = "Mozilla/5.0 (iPhone; CPU iPhone OS 16_6 like Mac OS X) AppleWebKit/605.1.15 (KHTML, like Gecko) Version/16.6 Mobile/15E148 Safari/604.1";

/// `first` where it is not empty, `second` otherwise.
pub open spec fn or_else(first: Seq<char>, second: Seq<char>) -> Seq<char> {
    if first.len() == 0 {
        second
    } else {
        first
    }
}

/// `first` where it is not empty, `second` otherwise.
fn or_else_exec(first: String, second: String) -> (r: String)
    ensures
        r@ == or_else(first@, second@),
{
    if first.as_str().is_empty() {
        second
    } else {
        first
    }
}

// ---------------------------------------------------------------------------
// Addresses
// ---------------------------------------------------------------------------

/// The id of a comic in a link to it: what follows the last `/comic/`, up
/// to the next `/`, with every `.html` taken out.
pub open spec fn manga_id_of(href: Seq<char>) -> Seq<char> {
    replace_all(before_char(split_last(href, "/comic/"@), '/'), ".html"@, Seq::empty())
}

/// `path` made absolute: kept where it begins with `http://` or `https://`,
/// given the scheme `https:` where it begins with `//`, otherwise put
/// behind the catalogue's address.
pub open spec fn absolute_of(path: Seq<char>) -> Seq<char> {
    if starts_with(path, "http://"@) || starts_with(path, "https://"@) {
        path
    } else if starts_with(path, "//"@) {
        "https:"@ + path
    } else {
        WWW_URL@ + path
    }
}

/// Whether `url` looks like the address of a page image: absolute, not a
/// tracker, logo or icon, and naming a picture format; all but the scheme
/// in any case of ASCII letters.
pub open spec fn looks_like_image_of(url: Seq<char>) -> bool {
    let lower = ascii_lower(url);
    &&& starts_with(url, "http://"@) || starts_with(url, "https://"@)
    &&& !has_substring(lower, "yandex.ru/watch"@)
    &&& !has_substring(lower, "/images/logo"@)
    &&& !ends_with(lower, "/logo.png"@)
    &&& !ends_with(lower, "favicon.ico"@)
    &&& {
        ||| has_substring(lower, ".jpg"@)
        ||| has_substring(lower, ".jpeg"@)
        ||| has_substring(lower, ".png"@)
        ||| has_substring(lower, ".webp"@)
        ||| has_substring(lower, ".gif"@)
    }
}

/// The id of the comic that `href` links to.
pub fn extract_manga_id(href: &str) -> (id: String)
    ensures
        id@ == manga_id_of(href@),
{
    proof {
        reveal_strlit("/comic/");
        reveal_strlit(".html");
    }
    let tail = split_last_exec(chars_of(href).as_slice(), chars_of("/comic/").as_slice());
    let head = before_char_exec(tail.as_slice(), '/');
    let empty: Vec<char> = Vec::new();
    let id = replace_all_exec(head.as_slice(), chars_of(".html").as_slice(), empty.as_slice());
    assert(empty@ =~= Seq::<char>::empty());
    string_of(id.as_slice())
}

/// `path` made absolute against the catalogue's address.
pub fn absolute_url(path: &str) -> (url: String)
    ensures
        url@ == absolute_of(path@),
{
    let p = chars_of(path);
    if starts_with_exec(p.as_slice(), chars_of("http://").as_slice()) || starts_with_exec(
        p.as_slice(),
        chars_of("https://").as_slice(),
    ) {
        string_of(p.as_slice())
    } else if starts_with_exec(p.as_slice(), chars_of("//").as_slice()) {
        string_of(join(chars_of("https:").as_slice(), p.as_slice()).as_slice())
    } else {
        string_of(join(chars_of(WWW_URL).as_slice(), p.as_slice()).as_slice())
    }
}

/// Whether `url` looks like the address of a page image.
pub fn looks_like_image(url: &str) -> (b: bool)
    ensures
        b == looks_like_image_of(url@),
{
    let u = chars_of(url);
    if !starts_with_exec(u.as_slice(), chars_of("http://").as_slice()) && !starts_with_exec(
        u.as_slice(),
        chars_of("https://").as_slice(),
    ) {
        return false;
    }
    let lower = ascii_lower_exec(u.as_slice());
    let l = lower.as_slice();
    if contains_exec(l, chars_of("yandex.ru/watch").as_slice()) || contains_exec(
        l,
        chars_of("/images/logo").as_slice(),
    ) || ends_with_exec(l, chars_of("/logo.png").as_slice()) || ends_with_exec(
        l,
        chars_of("favicon.ico").as_slice(),
    ) {
        return false;
    }
    contains_exec(l, chars_of(".jpg").as_slice()) || contains_exec(l, chars_of(".jpeg").as_slice())
        || contains_exec(l, chars_of(".png").as_slice()) || contains_exec(
        l,
        chars_of(".webp").as_slice(),
    ) || contains_exec(l, chars_of(".gif").as_slice())
}

// ---------------------------------------------------------------------------
// Listing
// ---------------------------------------------------------------------------

/// The address of a listing page: the latest updates where `query` is
/// empty, which have no page after the first; a search for
/// `encoded_query` (the query encoded for a URL) otherwise.
pub open spec fn list_url_of(query: Seq<char>, encoded_query: Seq<char>, page: int) -> Option<
    Seq<char>,
> {
    if query.len() == 0 {
        if page > 1 {
            None
        } else {
            Some(WWW_URL@ + "/update"@)
        }
    } else {
        Some(WWW_URL@ + "/search/"@ + encoded_query + "/page/"@ + decimal(page))
    }
}

/// Whether a listing page links to the page after `page`: never for the
/// latest updates, else where it holds `/page/` and the next number.
pub open spec fn has_more_of(query: Seq<char>, page_html: Seq<char>, page: int) -> bool {
    query.len() > 0 && has_substring(page_html, "/page/"@ + decimal(page + 1))
}

/// What an item of a listing shows, read from its web page.
#[derive(Debug)]
pub struct MangaItem {
    /// The `href` of the link round the item's image.
    pub image_link_href: String,
    /// The `href` of the item's title link.
    pub title_link_href: String,
    /// The `href` of the item's first link.
    pub link_href: String,
    /// The `src` of the item's image.
    pub image_src: String,
    /// The `data-src` of the item's image.
    pub image_data_src: String,
    /// The `data-original` of the item's image.
    pub image_data_original: String,
    /// The `title` of the link round the item's image.
    pub image_link_title: String,
    /// The text of the item's title link.
    pub title_link_text: String,
    /// The `alt` of the item's image.
    pub image_alt: String,
}

/// The link of an item: the first of its links that is given.
pub open spec fn item_href(item: MangaItem) -> Seq<char> {
    or_else(or_else(item.image_link_href@, item.title_link_href@), item.link_href@)
}

/// The cover of an item: the first source of its image that is given, made
/// absolute; empty where none is.
pub open spec fn item_cover(item: MangaItem) -> Seq<char> {
    let c = or_else(or_else(item.image_src@, item.image_data_src@), item.image_data_original@);
    if c.len() == 0 {
        c
    } else {
        absolute_of(c)
    }
}

/// The title of an item: the first of its titles that is given.
pub open spec fn item_title(item: MangaItem) -> Seq<char> {
    or_else(or_else(item.image_link_title@, item.title_link_text@), item.image_alt@)
}

/// The comic that an item lists, if it lists one: its link must lead to a
/// comic with an id, and it must have a title.
#[verifier::opaque]
pub open spec fn item_manga(item: MangaItem) -> Option<MangaView> {
    let href = item_href(item);
    let id = manga_id_of(href);
    if !has_substring(href, "/comic/"@) || id.len() == 0 || item_title(item).len() == 0 {
        None
    } else {
        Some(listed_manga(id, item_title(item), item_cover(item)))
    }
}

/// The comics that the items list, in order; `None` stands for an element that is no item.
pub open spec fn items_manga(items: Seq<Option<MangaItem>>) -> Seq<MangaView>
    decreases items.len(),
{
    if items.len() == 0 {
        Seq::empty()
    } else {
        let rest = items_manga(items.drop_last());
        match items.last() {
            Some(item) => match item_manga(item) {
                Some(m) => rest.push(m),
                None => rest,
            },
            None => rest,
        }
    }
}

/// The comics of a listing page: none for a page of the latest updates
/// after the first, else those that its items list.
pub open spec fn list_mangas_of(items: Seq<Option<MangaItem>>, query: Seq<char>, page: int) -> Seq<
    MangaView,
> {
    if list_url_of(query, Seq::empty(), page) is None {
        Seq::empty()
    } else {
        items_manga(items)
    }
}

/// The address of page `page` of the latest updates, or of a search for
/// `query`, whose URL-encoded form is `encoded_query`; `None` where there
/// is no such page to ask for.
pub fn manga_list_url(query: &str, encoded_query: &str, page: i32) -> (url: Option<String>)
    ensures
        match list_url_of(query@, encoded_query@, page as int) {
            Some(u) => url matches Some(s) && s@ == u,
            None => url is None,
        },
{
    let base = chars_of(WWW_URL);
    if query.is_empty() {
        if page > 1 {
            None
        } else {
            Some(string_of(join(base.as_slice(), chars_of("/update").as_slice()).as_slice()))
        }
    } else {
        let a = join(base.as_slice(), chars_of("/search/").as_slice());
        let b = join(a.as_slice(), chars_of(encoded_query).as_slice());
        let c = join(b.as_slice(), chars_of("/page/").as_slice());
        let d = join(c.as_slice(), decimal_exec(page as i64).as_slice());
        Some(string_of(d.as_slice()))
    }
}

/// The comic that one item lists, if any.
fn item_to_manga(item: &MangaItem) -> (r: Option<Manga>)
    ensures
        match item_manga(*item) {
            Some(v) => r matches Some(m) && m@ == v,
            None => r is None,
        },
{
    reveal(item_manga);
    let href = or_else_exec(
        or_else_exec(item.image_link_href.clone(), item.title_link_href.clone()),
        item.link_href.clone(),
    );
    if !contains_exec(chars_of(href.as_str()).as_slice(), chars_of("/comic/").as_slice()) {
        return None;
    }
    let id = extract_manga_id(href.as_str());
    if id.as_str().is_empty() {
        return None;
    }
    let source = or_else_exec(
        or_else_exec(item.image_src.clone(), item.image_data_src.clone()),
        item.image_data_original.clone(),
    );
    let cover = if source.as_str().is_empty() {
        source
    } else {
        absolute_url(source.as_str())
    };
    let title = or_else_exec(
        or_else_exec(item.image_link_title.clone(), item.title_link_text.clone()),
        item.image_alt.clone(),
    );
    if title.as_str().is_empty() {
        return None;
    }
    let m = Manga {
        id,
        title,
        cover,
        author: String::new(),
        artist: String::new(),
        description: String::new(),
        url: String::new(),
        categories: Vec::new(),
        status: MangaStatus::Unknown,
        nsfw: MangaContentRating::Safe,
        viewer: MangaViewer::Default,
    };
    assert(strings_view(m.categories@) =~= Seq::<Seq<char>>::empty());
    Some(m)
}

/// The comics that the items of a listing page list, in order.
pub fn parse_manga_items(items: &Vec<Option<MangaItem>>) -> (list: Vec<Manga>)
    ensures
        mangas_view(list@) == items_manga(items@),
{
    let mut list: Vec<Manga> = Vec::new();
    let mut i: usize = 0;
    while i < items.len()
        invariant
            i <= items@.len(),
            mangas_view(list@) == items_manga(items@.take(i as int)),
        decreases items@.len() - i,
    {
        assert(items@.take(i + 1).drop_last() =~= items@.take(i as int));
        assert(items@.take(i + 1).last() == items@[i as int]);
        if let Some(item) = &items[i] {
            if let Some(m) = item_to_manga(item) {
                let ghost before = list@;
                list.push(m);
                assert(mangas_view(list@) =~= mangas_view(before).push(m@));
            }
        }
        i = i + 1;
    }
    assert(items@.take(items@.len() as int) =~= items@);
    list
}

/// Whether the listing page `page_html` of page `page` for `query` links to the next page.
pub fn has_more(query: &str, page_html: &str, page: i32) -> (b: bool)
    requires
        query@.len() > 0 ==> page < i32::MAX,
    ensures
        b == has_more_of(query@, page_html@, page as int),
{
    if query.is_empty() {
        false
    } else {
        let next = join(chars_of("/page/").as_slice(), decimal_exec((page + 1) as i64).as_slice());
        contains_exec(chars_of(page_html).as_slice(), next.as_slice())
    }
}

/// A listing page: the comics on its items and whether it links to the
/// next page; nothing for a page of the latest updates after the first,
/// which is never asked for.
pub fn manga_list(items: &Vec<Option<MangaItem>>, query: &str, page_html: &str, page: i32) -> (r:
    MangaPageResult)
    requires
        query@.len() > 0 ==> page < i32::MAX,
    ensures
        mangas_view(r.manga@) == list_mangas_of(items@, query@, page as int),
        r.has_more == has_more_of(query@, page_html@, page as int),
{
    if query.is_empty() && page > 1 {
        let none: Vec<Manga> = Vec::new();
        assert(mangas_view(none@) =~= Seq::<MangaView>::empty());
        return MangaPageResult { manga: none, has_more: false };
    }
    MangaPageResult { manga: parse_manga_items(items), has_more: has_more(query, page_html, page) }
}

// ---------------------------------------------------------------------------
// Details
// ---------------------------------------------------------------------------

/// The address of the page of comic `id`.
pub open spec fn manga_url_of(id: Seq<char>) -> Seq<char> {
    WWW_URL@ + "/comic/"@ + id + ".html"@
}

/// What the page of a comic shows, read from it.
#[derive(Debug)]
pub struct MangaDetailsPage {
    /// The `src` of the cover image.
    pub cover: String,
    /// The title heading.
    pub title: String,
    /// The text of the first author element, `None` where there is none.
    pub author_text: Option<String>,
    /// The texts of the category links.
    pub categories: Vec<String>,
    /// The text of the description.
    pub description_text: String,
}

/// The comic `id` as its page describes it.
pub open spec fn details_of(id: Seq<char>, page: MangaDetailsPage) -> MangaView {
    MangaView {
        id,
        title: page.title@,
        cover: page.cover@,
        author: match page.author_text {
            Some(t) => trim(t@),
            None => Seq::empty(),
        },
        artist: Seq::empty(),
        description: trim(page.description_text@),
        url: manga_url_of(id),
        categories: strings_view(page.categories@),
        status: MangaStatus::Unknown,
        nsfw: MangaContentRating::Nsfw,
        viewer: MangaViewer::Scroll,
    }
}

/// The address of the page of comic `id`.
pub fn manga_details_url(id: &str) -> (url: String)
    ensures
        url@ == manga_url_of(id@),
{
    let a = join(chars_of(WWW_URL).as_slice(), chars_of("/comic/").as_slice());
    let b = join(a.as_slice(), chars_of(id).as_slice());
    string_of(join(b.as_slice(), chars_of(".html").as_slice()).as_slice())
}

/// The comic `id` as its page describes it.
pub fn manga_details(id: String, page: MangaDetailsPage) -> (m: Manga)
    ensures
        m@ == details_of(id@, page),
{
    let url = manga_details_url(id.as_str());
    let author = match &page.author_text {
        Some(t) => string_of(trim_exec(chars_of(t.as_str()).as_slice()).as_slice()),
        None => String::new(),
    };
    let description = string_of(
        trim_exec(chars_of(page.description_text.as_str()).as_slice()).as_slice(),
    );
    let MangaDetailsPage { cover, title, author_text: _, categories, description_text: _ } = page;
    Manga {
        id,
        title,
        cover,
        author,
        artist: String::new(),
        description,
        url,
        categories,
        status: MangaStatus::Unknown,
        nsfw: MangaContentRating::Nsfw,
        viewer: MangaViewer::Scroll,
    }
}

// ---------------------------------------------------------------------------
// Chapters
// ---------------------------------------------------------------------------

/// A chapter link of a comic's page, read from it.
#[derive(Debug)]
pub struct ChapterLink {
    /// The link's `href`.
    pub href: String,
    /// The link's `title`.
    pub title: String,
    /// The link's text.
    pub text: String,
}

/// The id of a chapter in a link to it: the link without its leading `/`s.
pub open spec fn chapter_id_of(href: Seq<char>) -> Seq<char> {
    trim_start_char(href, '/')
}

/// Whether a link leads to a chapter of a comic.
pub open spec fn is_chapter_link(href: Seq<char>) -> bool {
    has_substring(href, "/comic/"@) && has_substring(href, "/chapter-"@)
}

/// Whether one of `chapters` has the id `id`.
pub open spec fn has_chapter_id(chapters: Seq<ChapterView>, id: Seq<char>) -> bool {
    exists|j: int| 0 <= j < chapters.len() && chapters[j].id == id
}

/// The chapter that `link`, numbered `number`, adds to the chapters found
/// before it: none where it leads to no chapter or to one already found.
pub open spec fn link_chapter(link: ChapterLink, number: nat, found: Seq<ChapterView>) -> Option<
    ChapterView,
> {
    let id = chapter_id_of(link.href@);
    if !is_chapter_link(link.href@) || has_chapter_id(found, id) {
        None
    } else {
        Some(
            ChapterView {
                id,
                title: or_else(trim(link.title@), trim(link.text@)),
                number,
                url: absolute_of(seq!['/'] + id),
            },
        )
    }
}

/// The chapters among the first `k` of `links`, in order; the link at
/// position `i` is numbered `total - i`.
pub open spec fn chapters_from(links: Seq<Option<ChapterLink>>, k: int, total: nat) -> Seq<
    ChapterView,
>
    decreases k,
{
    if k <= 0 {
        Seq::empty()
    } else {
        let rest = chapters_from(links, k - 1, total);
        match links[k - 1] {
            Some(link) => match link_chapter(link, (total - (k - 1)) as nat, rest) {
                Some(c) => rest.push(c),
                None => rest,
            },
            None => rest,
        }
    }
}

/// The chapters that the chapter links of a comic's page lead to, each
/// once, in page order, numbered down from the number of links; `None`
/// stands for an element that is no link.
pub open spec fn chapter_list_of(links: Seq<Option<ChapterLink>>) -> Seq<ChapterView> {
    chapters_from(links, links.len() as int, links.len())
}

/// Whether one of `chapters` has the id `id`.
fn has_chapter_id_exec(chapters: &Vec<Chapter>, id: &String) -> (b: bool)
    ensures
        b == has_chapter_id(chapters_view(chapters@), id@),
{
    let mut j: usize = 0;
    while j < chapters.len()
        invariant
            j <= chapters@.len(),
            forall|k: int| 0 <= k < j ==> chapters@[k].id@ != id@,
        decreases chapters@.len() - j,
    {
        if chapters[j].id == *id {
            assert(chapters_view(chapters@)[j as int].id == id@);
            return true;
        }
        j = j + 1;
    }
    assert forall|k: int| 0 <= k < chapters_view(chapters@).len() implies chapters_view(
        chapters@,
    )[k].id != id@ by {
        assert(chapters_view(chapters@)[k] == chapters@[k]@);
    }
    false
}

/// The chapters that the chapter links of a comic's page lead to, each once.
pub fn chapter_list(links: &Vec<Option<ChapterLink>>) -> (chapters: Vec<Chapter>)
    ensures
        chapters_view(chapters@) == chapter_list_of(links@),
{
    let len = links.len();
    let mut chapters: Vec<Chapter> = Vec::new();
    let mut i: usize = 0;
    while i < len
        invariant
            len == links@.len(),
            i <= len,
            chapters_view(chapters@) == chapters_from(links@, i as int, len as nat),
        decreases len - i,
    {
        if let Some(link) = &links[i] {
            let href = chars_of(link.href.as_str());
            if contains_exec(href.as_slice(), chars_of("/comic/").as_slice()) && contains_exec(
                href.as_slice(),
                chars_of("/chapter-").as_slice(),
            ) {
                let id = string_of(trim_start_char_exec(href.as_slice(), '/').as_slice());
                if !has_chapter_id_exec(&chapters, &id) {
                    let title = or_else_exec(
                        string_of(trim_exec(chars_of(link.title.as_str()).as_slice()).as_slice()),
                        string_of(trim_exec(chars_of(link.text.as_str()).as_slice()).as_slice()),
                    );
                    let mut slash: Vec<char> = Vec::new();
                    slash.push('/');
                    let path = join(slash.as_slice(), chars_of(id.as_str()).as_slice());
                    assert(slash@ =~= seq!['/']);
                    let url = absolute_url(string_of(path.as_slice()).as_str());
                    let c = Chapter { id, title, number: len - i, url };
                    let ghost before = chapters@;
                    chapters.push(c);
                    assert(chapters_view(chapters@) =~= chapters_view(before).push(c@));
                }
            }
        }
        i = i + 1;
    }
    chapters
}

// ---------------------------------------------------------------------------
// Pages
// ---------------------------------------------------------------------------

/// The address of the chapter `chapter_id`: itself where it begins with
/// `http`, else made absolute, with a `/` put in front where it has none.
pub open spec fn page_list_url_of(chapter_id: Seq<char>) -> Seq<char> {
    if starts_with(chapter_id, "http"@) {
        chapter_id
    } else if starts_with(chapter_id, "/"@) {
        absolute_of(chapter_id)
    } else {
        absolute_of(seq!['/'] + chapter_id)
    }
}

/// The sources of an image of a chapter's web page, read from it.
#[derive(Debug)]
pub struct PageImage {
    /// The image's `data-original`.
    pub data_original: String,
    /// The image's `data-src`.
    pub data_src: String,
    /// The image's `src`.
    pub src: String,
}

/// The address of an image: the first of its sources that is given.
pub open spec fn image_url(image: PageImage) -> Seq<char> {
    or_else(or_else(image.data_original@, image.data_src@), image.src@)
}

/// The pages among the first `k` images, in order, each with its position.
pub open spec fn pages_from(images: Seq<Option<PageImage>>, k: int) -> Seq<PageView>
    decreases k,
{
    if k <= 0 {
        Seq::empty()
    } else {
        let rest = pages_from(images, k - 1);
        match images[k - 1] {
            Some(image) => if looks_like_image_of(image_url(image)) {
                rest.push(PageView { index: (k - 1) as i32, url: image_url(image) })
            } else {
                rest
            },
            None => rest,
        }
    }
}

/// The pages of a chapter among the images of its web page; `None` stands
/// for an element that is no image.
pub open spec fn page_list_of(images: Seq<Option<PageImage>>) -> Seq<PageView> {
    pages_from(images, images.len() as int)
}

/// The address of the chapter `chapter_id`.
pub fn page_list_url(chapter_id: String) -> (url: String)
    ensures
        url@ == page_list_url_of(chapter_id@),
{
    let c = chars_of(chapter_id.as_str());
    if starts_with_exec(c.as_slice(), chars_of("http").as_slice()) {
        chapter_id
    } else if starts_with_exec(c.as_slice(), chars_of("/").as_slice()) {
        absolute_url(chapter_id.as_str())
    } else {
        let mut slash: Vec<char> = Vec::new();
        slash.push('/');
        assert(slash@ =~= seq!['/']);
        let path = join(slash.as_slice(), c.as_slice());
        absolute_url(string_of(path.as_slice()).as_str())
    }
}

/// The pages of a chapter among the images of its web page.
pub fn page_list(images: &Vec<Option<PageImage>>) -> (pages: Vec<Page>)
    ensures
        pages_view(pages@) == page_list_of(images@),
{
    let mut pages: Vec<Page> = Vec::new();
    let mut i: usize = 0;
    while i < images.len()
        invariant
            i <= images@.len(),
            pages_view(pages@) == pages_from(images@, i as int),
        decreases images@.len() - i,
    {
        if let Some(image) = &images[i] {
            let url = or_else_exec(
                or_else_exec(image.data_original.clone(), image.data_src.clone()),
                image.src.clone(),
            );
            if looks_like_image(url.as_str()) {
                let p = Page { index: i as i32, url };
                let ghost before = pages@;
                pages.push(p);
                assert(pages_view(pages@) =~= pages_view(before).push(p@));
            }
        }
        i = i + 1;
    }
    pages
}

// ---------------------------------------------------------------------------
// Laws
// ---------------------------------------------------------------------------

/// A comic id taken from a link never holds a `/`.
pub proof fn manga_id_has_no_slash(href: Seq<char>)
    ensures
        !manga_id_of(href).contains('/'),
{
    let head = before_char(split_last(href, "/comic/"@), '/');
    crate::text::lemma_before_char_excludes(split_last(href, "/comic/"@), '/');
    crate::text::lemma_replace_all_excludes(head, ".html"@, Seq::empty(), '/');
}

/// Making an address absolute gives an address that begins with
/// `http://` or `https://`, and leaves such an address as it is.
pub proof fn absolute_is_absolute(path: Seq<char>)
    ensures
        starts_with(absolute_of(path), "http://"@) || starts_with(absolute_of(path), "https://"@),
        absolute_of(absolute_of(path)) == absolute_of(path),
{
    reveal_strlit("https://nnhanman.xyz");
    reveal_strlit("https://");
    reveal_strlit("https:");
    reveal_strlit("//");
    if !(starts_with(path, "http://"@) || starts_with(path, "https://"@)) {
        let v = absolute_of(path);
        if starts_with(path, "//"@) {
            assert(path.subrange(0, 2) =~= "//"@);
            assert(v.subrange(0, 8) =~= "https://"@) by {
                assert(v == "https:"@ + path);
                assert forall|i: int| 0 <= i < 8 implies v[i] == "https://"@[i] by {
                    if i >= 6 {
                        assert(v[i] == path[i - 6]);
                        assert(path[i - 6] == path.subrange(0, 2)[i - 6]);
                    }
                }
            }
        } else {
            assert(v.subrange(0, 8) =~= "https://"@);
        }
        assert(starts_with(v, "https://"@));
    }
}

/// Whether a listed comic has an id and a title, and its id holds no `/`.
pub open spec fn well_listed(m: MangaView) -> bool {
    &&& m.id.len() > 0
    &&& m.title.len() > 0
    &&& !m.id.contains('/')
}

/// Every comic of a listing has an id free of `/` and a title.
pub proof fn listed_mangas_are_well_formed(items: Seq<Option<MangaItem>>)
    ensures
        forall|k: int| 0 <= k < items_manga(items).len() ==> well_listed(#[trigger] items_manga(items)[k]),
    decreases items.len(),
{
    if items.len() > 0 {
        listed_mangas_are_well_formed(items.drop_last());
        if let Some(item) = items.last() {
            manga_id_has_no_slash(item_href(item));
            reveal(item_manga);
        }
        let rest = items_manga(items.drop_last());
        let all = items_manga(items);
        assert forall|k: int| 0 <= k < all.len() implies well_listed(#[trigger] all[k]) by {
            if k < rest.len() {
                assert(all[k] == rest[k]);
            }
        }
    }
}

/// The chapters among the first `k` links have distinct ids and are
/// numbered above `total - k`, strictly downwards.
proof fn lemma_chapters_from(links: Seq<Option<ChapterLink>>, k: int, total: nat)
    requires
        0 <= k <= links.len() <= total,
    ensures
        forall|a: int| 0 <= a < chapters_from(links, k, total).len() ==> {
            let c = #[trigger] chapters_from(links, k, total)[a];
            &&& total - k < c.number <= total
            &&& c.url == absolute_of(seq!['/'] + c.id)
            &&& !starts_with(c.id, "/"@)
        },
        forall|a: int, b: int|
            0 <= a < b < chapters_from(links, k, total).len() ==> {
                &&& #[trigger] chapters_from(links, k, total)[a].number > #[trigger] chapters_from(
                    links,
                    k,
                    total,
                )[b].number
                &&& chapters_from(links, k, total)[a].id != chapters_from(links, k, total)[b].id
            },
    decreases k,
{
    if k > 0 {
        lemma_chapters_from(links, k - 1, total);
        let rest = chapters_from(links, k - 1, total);
        let all = chapters_from(links, k, total);
        assert forall|a: int| 0 <= a < all.len() implies {
            let c = #[trigger] all[a];
            &&& total - k < c.number <= total
            &&& c.url == absolute_of(seq!['/'] + c.id)
            &&& !starts_with(c.id, "/"@)
        } by {
            if a < rest.len() {
                assert(all[a] == rest[a]);
            } else if let Some(link) = links[k - 1] {
                reveal_strlit("/");
                crate::text::lemma_trim_start_char_head(link.href@, '/');
                if starts_with(all[a].id, "/"@) {
                    assert(all[a].id[0] == all[a].id.subrange(0, 1)[0]);
                }
            }
        }
        assert forall|a: int, b: int| 0 <= a < b < all.len() implies {
            &&& #[trigger] all[a].number > #[trigger] all[b].number
            &&& all[a].id != all[b].id
        } by {
            assert(all[a] == rest[a]);
            if b < rest.len() {
                assert(all[b] == rest[b]);
            } else {
                assert(!has_chapter_id(rest, all[b].id));
            }
        }
    }
}

/// The chapters of a comic each appear once, by id, and are numbered from
/// the number of chapter links down, strictly, never below 1.
pub proof fn chapters_are_distinct_and_numbered_downwards(links: Seq<Option<ChapterLink>>)
    ensures
        forall|a: int| 0 <= a < chapter_list_of(links).len() ==> 1 <= (
        #[trigger] chapter_list_of(links)[a]).number <= links.len(),
        forall|a: int, b: int|
            0 <= a < b < chapter_list_of(links).len() ==> {
                &&& #[trigger] chapter_list_of(links)[a].number > #[trigger] chapter_list_of(
                    links,
                )[b].number
                &&& chapter_list_of(links)[a].id != chapter_list_of(links)[b].id
            },
{
    lemma_chapters_from(links, links.len() as int, links.len());
}

/// The pages of a listed chapter are asked for at the chapter's address,
/// unless its id begins with `http`.
pub proof fn chapter_pages_are_asked_at_chapter_url(links: Seq<Option<ChapterLink>>, a: int)
    requires
        0 <= a < chapter_list_of(links).len(),
        !starts_with(chapter_list_of(links)[a].id, "http"@),
    ensures
        page_list_url_of(chapter_list_of(links)[a].id) == chapter_list_of(links)[a].url,
{
    lemma_chapters_from(links, links.len() as int, links.len());
}

/// The pages among the first `k` images come in page order, each looking
/// like an image and with a position below `k`.
proof fn lemma_pages_from(images: Seq<Option<PageImage>>, k: int)
    requires
        0 <= k <= images.len(),
        images.len() <= i32::MAX + 1,
    ensures
        forall|a: int| 0 <= a < pages_from(images, k).len() ==> {
            let p = #[trigger] pages_from(images, k)[a];
            &&& 0 <= p.index < k
            &&& looks_like_image_of(p.url)
        },
        forall|a: int, b: int|
            0 <= a < b < pages_from(images, k).len() ==> #[trigger] pages_from(images, k)[a].index
                < #[trigger] pages_from(images, k)[b].index,
    decreases k,
{
    if k > 0 {
        lemma_pages_from(images, k - 1);
        let rest = pages_from(images, k - 1);
        let all = pages_from(images, k);
        assert forall|a: int| 0 <= a < all.len() implies {
            let p = #[trigger] all[a];
            &&& 0 <= p.index < k
            &&& looks_like_image_of(p.url)
        } by {
            if a < rest.len() {
                assert(all[a] == rest[a]);
            }
        }
        assert forall|a: int, b: int| 0 <= a < b < all.len() implies #[trigger] all[a].index
            < #[trigger] all[b].index by {
            assert(all[a] == rest[a]);
            if b < rest.len() {
                assert(all[b] == rest[b]);
            }
        }
    }
}

/// The pages of a chapter come in the order of their images on the web
/// page, and each looks like an image; on pages with more images than an
/// `i32` counts the positions wrap.
pub proof fn pages_keep_page_order(images: Seq<Option<PageImage>>)
    requires
        images.len() <= i32::MAX + 1,
    ensures
        forall|a: int| 0 <= a < page_list_of(images).len() ==> {
            let p = #[trigger] page_list_of(images)[a];
            &&& 0 <= p.index < images.len()
            &&& looks_like_image_of(p.url)
        },
        forall|a: int, b: int|
            0 <= a < b < page_list_of(images).len() ==> #[trigger] page_list_of(images)[a].index
                < #[trigger] page_list_of(images)[b].index,
{
    lemma_pages_from(images, images.len() as int);
}

/// An `http://` or `https://` address whose lower-case form names a
/// `.jpg`, `.jpeg`, `.png`, `.webp` or `.gif` picture is a page image,
/// unless that form holds `yandex.ru/watch` or `/images/logo`, or ends with
/// `/logo.png` or `favicon.ico`; nothing else is.
pub proof fn page_images_are_pictures_but_no_logos(url: Seq<char>)
    ensures
        ({
            let lower = ascii_lower(url);
            looks_like_image_of(url) <==> {
                &&& starts_with(url, "http://"@) || starts_with(url, "https://"@)
                &&& has_substring(lower, ".jpg"@) || has_substring(lower, ".jpeg"@)
                    || has_substring(lower, ".png"@) || has_substring(lower, ".webp"@)
                    || has_substring(lower, ".gif"@)
                &&& !has_substring(lower, "yandex.ru/watch"@)
                &&& !has_substring(lower, "/images/logo"@)
                &&& !ends_with(lower, "/logo.png"@)
                &&& !ends_with(lower, "favicon.ico"@)
            }
        }),
{
}

/// The description of a comic is its description text trimmed: one
/// unbroken piece of the text, every inner character (line breaks too)
/// kept, and only white space around it left out.
pub proof fn description_is_text_trimmed(id: Seq<char>, page: MangaDetailsPage) -> (bounds: (
    int,
    int,
))
    ensures
        ({
            let text = page.description_text@;
            &&& 0 <= bounds.0 <= bounds.1 <= text.len()
            &&& details_of(id, page).description == text.subrange(bounds.0, bounds.1)
            &&& forall|j: int| 0 <= j < bounds.0 ==> crate::text::is_white_space(#[trigger] text[j])
            &&& forall|j: int| bounds.1 <= j < text.len() ==> crate::text::is_white_space(
                #[trigger] text[j],
            )
            &&& bounds.0 < bounds.1 ==> !crate::text::is_white_space(text[bounds.0])
                && !crate::text::is_white_space(text[bounds.1 - 1])
        }),
{
    crate::text::lemma_trim_bounds(page.description_text@)
}

/// The author of a comic is the text of its first author element trimmed,
/// in the same sense; empty where there is no such element.
pub proof fn author_is_text_trimmed(id: Seq<char>, page: MangaDetailsPage) -> (bounds: (int, int))
    ensures
        page.author_text is None ==> details_of(id, page).author.len() == 0,
        page.author_text matches Some(a) ==> {
            let text = a@;
            &&& 0 <= bounds.0 <= bounds.1 <= text.len()
            &&& details_of(id, page).author == text.subrange(bounds.0, bounds.1)
            &&& forall|j: int| 0 <= j < bounds.0 ==> crate::text::is_white_space(#[trigger] text[j])
            &&& forall|j: int| bounds.1 <= j < text.len() ==> crate::text::is_white_space(
                #[trigger] text[j],
            )
            &&& bounds.0 < bounds.1 ==> !crate::text::is_white_space(text[bounds.0])
                && !crate::text::is_white_space(text[bounds.1 - 1])
        },
{
    match page.author_text {
        Some(a) => crate::text::lemma_trim_bounds(a@),
        None => (0, 0),
    }
}

/// The id of the chapter that an element leads to, where it is a link
/// holding `/comic/` and `/chapter-`: the link without its leading `/`s.
pub open spec fn chapter_link_id(link: Option<ChapterLink>) -> Option<Seq<char>> {
    match link {
        Some(l) => if has_substring(l.href@, "/comic/"@) && has_substring(l.href@, "/chapter-"@) {
            Some(trim_start_char(l.href@, '/'))
        } else {
            None
        },
        None => None,
    }
}

/// Whether the link at position `i` is the first of `links` to lead to its chapter.
pub open spec fn first_link_to(links: Seq<Option<ChapterLink>>, i: int) -> bool {
    &&& chapter_link_id(links[i]) is Some
    &&& forall|j: int| 0 <= j < i ==> #[trigger] chapter_link_id(links[j]) != chapter_link_id(links[i])
}

/// Over the first `k` links, every chapter comes from a chapter link before `k`.
proof fn lemma_chapters_sourced(links: Seq<Option<ChapterLink>>, k: int, total: nat)
    requires
        0 <= k <= links.len() <= total,
    ensures
        forall|a: int|
            #![trigger chapters_from(links, k, total)[a]]
            0 <= a < chapters_from(links, k, total).len() ==> exists|j: int|
                0 <= j < k && #[trigger] chapter_link_id(links[j]) == Some(
                    chapters_from(links, k, total)[a].id,
                ),
    decreases k,
{
    if k > 0 {
        lemma_chapters_sourced(links, k - 1, total);
        let rest = chapters_from(links, k - 1, total);
        let all = chapters_from(links, k, total);
        let last = k - 1;
        assert forall|a: int| #![trigger all[a]] 0 <= a < all.len() implies exists|j: int|
            0 <= j < k && #[trigger] chapter_link_id(links[j]) == Some(all[a].id) by {
            if a < rest.len() {
                assert(all[a] == rest[a]);
                let j = choose|j: int| 0 <= j < k - 1 && #[trigger] chapter_link_id(links[j]) == Some(
                    rest[a].id,
                );
                assert(chapter_link_id(links[j]) == Some(all[a].id));
            } else {
                assert(chapter_link_id(links[last]) == Some(all[a].id));
            }
        }
    }
}

/// Over the first `k` links, every chapter link's id is listed.
proof fn lemma_chapters_listed(links: Seq<Option<ChapterLink>>, k: int, total: nat)
    requires
        0 <= k <= links.len() <= total,
    ensures
        forall|i: int|
            0 <= i < k && #[trigger] chapter_link_id(links[i]) is Some ==> exists|a: int|
                0 <= a < chapters_from(links, k, total).len() && Some(
                    #[trigger] chapters_from(links, k, total)[a].id,
                ) == chapter_link_id(links[i]),
    decreases k,
{
    if k > 0 {
        lemma_chapters_listed(links, k - 1, total);
        let rest = chapters_from(links, k - 1, total);
        let all = chapters_from(links, k, total);
        assert forall|i: int| 0 <= i < k && #[trigger] chapter_link_id(links[i]) is Some implies exists|
            a: int,
        | 0 <= a < all.len() && Some(#[trigger] all[a].id) == chapter_link_id(links[i]) by {
            if i < k - 1 {
                let a = choose|a: int|
                    0 <= a < rest.len() && Some(#[trigger] rest[a].id) == chapter_link_id(links[i]);
                assert(all[a] == rest[a]);
            } else {
                let id = chapter_link_id(links[i])->0;
                if has_chapter_id(rest, id) {
                    let a = choose|a: int| 0 <= a < rest.len() && rest[a].id == id;
                    assert(all[a] == rest[a]);
                } else {
                    assert(all[rest.len() as int].id == id);
                }
            }
        }
    }
}

/// Over the first `k` links, the first link to a chapter gives it its
/// number, title and address.
proof fn lemma_chapters_first(links: Seq<Option<ChapterLink>>, k: int, total: nat)
    requires
        0 <= k <= links.len() <= total,
    ensures
        forall|i: int|
            0 <= i < k && #[trigger] first_link_to(links, i) ==> exists|a: int|
                0 <= a < chapters_from(links, k, total).len() && {
                    let c = #[trigger] chapters_from(links, k, total)[a];
                    let l = links[i]->0;
                    &&& Some(c.id) == chapter_link_id(links[i])
                    &&& c.number == total - i
                    &&& c.title == or_else(trim(l.title@), trim(l.text@))
                    &&& c.url == absolute_of(seq!['/'] + c.id)
                },
    decreases k,
{
    if k > 0 {
        lemma_chapters_first(links, k - 1, total);
        let rest = chapters_from(links, k - 1, total);
        let all = chapters_from(links, k, total);
        assert forall|i: int| 0 <= i < k && #[trigger] first_link_to(links, i) implies exists|a: int|
            0 <= a < all.len() && {
                let c = #[trigger] all[a];
                let l = links[i]->0;
                &&& Some(c.id) == chapter_link_id(links[i])
                &&& c.number == total - i
                &&& c.title == or_else(trim(l.title@), trim(l.text@))
                &&& c.url == absolute_of(seq!['/'] + c.id)
            } by {
            if i < k - 1 {
                let a = choose|a: int|
                    0 <= a < rest.len() && {
                        let c = #[trigger] rest[a];
                        let l = links[i]->0;
                        &&& Some(c.id) == chapter_link_id(links[i])
                        &&& c.number == total - i
                        &&& c.title == or_else(trim(l.title@), trim(l.text@))
                        &&& c.url == absolute_of(seq!['/'] + c.id)
                    };
                assert(all[a] == rest[a]);
            } else {
                let id = chapter_link_id(links[i])->0;
                if has_chapter_id(rest, id) {
                    lemma_chapters_sourced(links, k - 1, total);
                    let a = choose|a: int| 0 <= a < rest.len() && rest[a].id == id;
                    let j = choose|j: int| 0 <= j < k - 1 && #[trigger] chapter_link_id(links[j]) == Some(
                        rest[a].id,
                    );
                    assert(chapter_link_id(links[j]) != chapter_link_id(links[i]));
                }
                assert(all[rest.len() as int].id == id);
            }
        }
    }
}

/// Every listed chapter comes from a chapter link of the comic's page.
pub proof fn every_listed_chapter_has_a_link(links: Seq<Option<ChapterLink>>, a: int)
    requires
        0 <= a < chapter_list_of(links).len(),
    ensures
        exists|j: int|
            0 <= j < links.len() && #[trigger] chapter_link_id(links[j]) == Some(
                chapter_list_of(links)[a].id,
            ),
{
    let n = links.len() as int;
    lemma_chapters_sourced(links, n, links.len());
    let l = chapters_from(links, n, links.len());
    assert(l[a] == chapter_list_of(links)[a]);
}

/// Every chapter link of a comic's page leads to a listed chapter, however
/// its title or text reads.
pub proof fn every_chapter_link_is_listed(links: Seq<Option<ChapterLink>>, i: int)
    requires
        0 <= i < links.len(),
        chapter_link_id(links[i]) is Some,
    ensures
        exists|a: int|
            0 <= a < chapter_list_of(links).len() && Some(#[trigger] chapter_list_of(links)[a].id)
                == chapter_link_id(links[i]),
{
    let n = links.len() as int;
    lemma_chapters_listed(links, n, links.len());
    let l = chapters_from(links, n, links.len());
    let a = choose|a: int| 0 <= a < l.len() && Some(#[trigger] l[a].id) == chapter_link_id(links[i]);
    assert(l[a] == chapter_list_of(links)[a]);
}

/// The first link to a chapter gives it its number (counted down from the
/// number of links), its title (the link's title trimmed, or its text
/// trimmed where that is empty) and its address.
pub proof fn first_link_makes_the_chapter(links: Seq<Option<ChapterLink>>, i: int)
    requires
        0 <= i < links.len(),
        first_link_to(links, i),
    ensures
        exists|a: int|
            0 <= a < chapter_list_of(links).len() && {
                let c = #[trigger] chapter_list_of(links)[a];
                let l = links[i]->0;
                &&& Some(c.id) == chapter_link_id(links[i])
                &&& c.number == links.len() - i
                &&& c.title == or_else(trim(l.title@), trim(l.text@))
                &&& c.url == absolute_of(seq!['/'] + c.id)
            },
{
    let n = links.len() as int;
    lemma_chapters_first(links, n, links.len());
    let l = chapters_from(links, n, links.len());
    let a = choose|a: int|
        0 <= a < l.len() && {
            let c = #[trigger] l[a];
            let k = links[i]->0;
            &&& Some(c.id) == chapter_link_id(links[i])
            &&& c.number == links.len() - i
            &&& c.title == or_else(trim(k.title@), trim(k.text@))
            &&& c.url == absolute_of(seq!['/'] + c.id)
        };
    assert(l[a] == chapter_list_of(links)[a]);
}

/// Whether an item lists a comic: its first given link holds `/comic/`
/// and gives an id, and it has a title.
#[verifier::opaque]
spec fn item_is_listed(item: MangaItem) -> bool {
    let href = or_else(or_else(item.image_link_href@, item.title_link_href@), item.link_href@);
    &&& has_substring(href, "/comic/"@)
    &&& manga_id_of(href).len() > 0
    &&& or_else(or_else(item.image_link_title@, item.title_link_text@), item.image_alt@).len() > 0
}

/// The comic an item stands for: the id of its first given link, its first
/// given title, and its first given image source made absolute.
#[verifier::opaque]
spec fn item_listing(item: MangaItem) -> MangaView {
    let href = or_else(or_else(item.image_link_href@, item.title_link_href@), item.link_href@);
    let source = or_else(or_else(item.image_src@, item.image_data_src@), item.image_data_original@);
    listed_manga(
        manga_id_of(href),
        or_else(or_else(item.image_link_title@, item.title_link_text@), item.image_alt@),
        if source.len() == 0 {
            source
        } else {
            absolute_of(source)
        },
    )
}

/// What one item lists, told by the two rules above.
proof fn lemma_item_manga(item: MangaItem)
    ensures
        item_manga(item) == (if item_is_listed(item) {
            Some(item_listing(item))
        } else {
            None::<MangaView>
        }),
{
    reveal(item_manga);
    reveal(item_is_listed);
    reveal(item_listing);
}

/// Every item that lists a comic is in the listing.
proof fn lemma_items_listed(items: Seq<Option<MangaItem>>)
    ensures
        forall|i: int|
            #![trigger items[i]]
            0 <= i < items.len() && items[i] is Some && item_is_listed(items[i]->0) ==> exists|a: int|
                0 <= a < items_manga(items).len() && #[trigger] items_manga(items)[a] == item_listing(
                    items[i]->0,
                ),
    decreases items.len(),
{
    if items.len() > 0 {
        let init = items.drop_last();
        lemma_items_listed(init);
        if let Some(c) = items.last() {
            lemma_item_manga(c);
        }
        let rest = items_manga(init);
        let all = items_manga(items);
        assert forall|i: int|
            #![trigger items[i]]
            0 <= i < items.len() && items[i] is Some && item_is_listed(items[i]->0) implies exists|
            a: int,
        | 0 <= a < all.len() && #[trigger] all[a] == item_listing(items[i]->0) by {
            if i < items.len() - 1 {
                assert(init[i] == items[i]);
                let a = choose|a: int|
                    0 <= a < rest.len() && #[trigger] rest[a] == item_listing(init[i]->0);
                assert(all[a] == rest[a]);
            } else {
                assert(all[rest.len() as int] == item_listing(items[i]->0));
            }
        }
    }
}

/// Everything in the listing comes from an item that lists a comic.
proof fn lemma_items_sourced(items: Seq<Option<MangaItem>>)
    ensures
        forall|a: int|
            #![trigger items_manga(items)[a]]
            0 <= a < items_manga(items).len() ==> exists|i: int|
                0 <= i < items.len() && #[trigger] items[i] is Some && item_is_listed(items[i]->0)
                    && items_manga(items)[a] == item_listing(items[i]->0),
    decreases items.len(),
{
    if items.len() > 0 {
        let init = items.drop_last();
        lemma_items_sourced(init);
        if let Some(c) = items.last() {
            lemma_item_manga(c);
        }
        let rest = items_manga(init);
        let all = items_manga(items);
        assert forall|a: int| #![trigger all[a]] 0 <= a < all.len() implies exists|i: int|
            0 <= i < items.len() && #[trigger] items[i] is Some && item_is_listed(items[i]->0)
                && all[a] == item_listing(items[i]->0) by {
            if a < rest.len() {
                assert(all[a] == rest[a]);
                let i = choose|i: int|
                    0 <= i < init.len() && #[trigger] init[i] is Some && item_is_listed(init[i]->0)
                        && rest[a] == item_listing(init[i]->0);
                assert(init[i] == items[i]);
            } else {
                assert(items[items.len() - 1] is Some);
            }
        }
    }
}

/// Every item whose first given link (around the image, on the title, or
/// any) holds `/comic/` and gives a comic id, and which has a title (the
/// image link's `title`, the title link's text, or the image's `alt`, the
/// first given), is in the listing with that id and title, and as cover the
/// first given image source (`src`, `data-src`, `data-original`) made
/// absolute, or nothing where none is given.
pub proof fn every_listing_item_is_listed(items: Seq<Option<MangaItem>>, i: int)
    requires
        0 <= i < items.len(),
        items[i] is Some,
        ({
            let it = items[i]->0;
            let href = or_else(or_else(it.image_link_href@, it.title_link_href@), it.link_href@);
            &&& has_substring(href, "/comic/"@)
            &&& manga_id_of(href).len() > 0
            &&& or_else(or_else(it.image_link_title@, it.title_link_text@), it.image_alt@).len() > 0
        }),
    ensures
        exists|a: int|
            0 <= a < items_manga(items).len() && {
                let m = #[trigger] items_manga(items)[a];
                let it = items[i]->0;
                let href = or_else(or_else(it.image_link_href@, it.title_link_href@), it.link_href@);
                let source = or_else(
                    or_else(it.image_src@, it.image_data_src@),
                    it.image_data_original@,
                );
                &&& m.id == manga_id_of(href)
                &&& m.title == or_else(
                    or_else(it.image_link_title@, it.title_link_text@),
                    it.image_alt@,
                )
                &&& m.cover == (if source.len() == 0 {
                    source
                } else {
                    absolute_of(source)
                })
            },
{
    reveal(item_is_listed);
    reveal(item_listing);
    lemma_items_listed(items);
    assert(items[i] is Some);
}

/// Everything in a listing comes from an item whose first given link holds
/// `/comic/` and gives its id, with the item's first given title and its
/// first given image source, made absolute, as cover.
pub proof fn every_listed_manga_has_an_item(items: Seq<Option<MangaItem>>, a: int)
    requires
        0 <= a < items_manga(items).len(),
    ensures
        exists|i: int|
            0 <= i < items.len() && #[trigger] items[i] is Some && {
                let m = items_manga(items)[a];
                let it = items[i]->0;
                let href = or_else(or_else(it.image_link_href@, it.title_link_href@), it.link_href@);
                let source = or_else(
                    or_else(it.image_src@, it.image_data_src@),
                    it.image_data_original@,
                );
                &&& has_substring(href, "/comic/"@)
                &&& m.id == manga_id_of(href)
                &&& m.id.len() > 0
                &&& m.title == or_else(
                    or_else(it.image_link_title@, it.title_link_text@),
                    it.image_alt@,
                )
                &&& m.title.len() > 0
                &&& m.cover == (if source.len() == 0 {
                    source
                } else {
                    absolute_of(source)
                })
            },
{
    reveal(item_is_listed);
    reveal(item_listing);
    lemma_items_sourced(items);
    let i = choose|i: int|
        0 <= i < items.len() && #[trigger] items[i] is Some && item_is_listed(items[i]->0)
            && items_manga(items)[a] == item_listing(items[i]->0);
    assert(items[i] is Some);
}

/// The address an image gives: its `data-original`, else its `data-src`,
/// else its `src`, the first that is given.
spec fn first_source(image: PageImage) -> Seq<char> {
    or_else(or_else(image.data_original@, image.data_src@), image.src@)
}

/// The page at position `i` with address `url`.
spec fn page_at(i: int, url: Seq<char>) -> PageView {
    PageView { index: i as i32, url }
}

/// Every image whose address looks like an image is a page at its position.
proof fn lemma_pages_listed(images: Seq<Option<PageImage>>, k: int)
    requires
        0 <= k <= images.len(),
    ensures
        forall|i: int|
            #![trigger images[i]]
            0 <= i < k && images[i] is Some && looks_like_image_of(first_source(images[i]->0))
                ==> exists|a: int|
                0 <= a < pages_from(images, k).len() && #[trigger] pages_from(images, k)[a]
                    == page_at(i, first_source(images[i]->0)),
    decreases k,
{
    if k > 0 {
        lemma_pages_listed(images, k - 1);
        let rest = pages_from(images, k - 1);
        let all = pages_from(images, k);
        assert forall|i: int|
            #![trigger images[i]]
            0 <= i < k && images[i] is Some && looks_like_image_of(first_source(images[i]->0))
                implies exists|a: int|
            0 <= a < all.len() && #[trigger] all[a] == page_at(i, first_source(images[i]->0)) by {
            if i < k - 1 {
                let a = choose|a: int|
                    0 <= a < rest.len() && #[trigger] rest[a] == page_at(
                        i,
                        first_source(images[i]->0),
                    );
                assert(all[a] == rest[a]);
            } else {
                assert(all[rest.len() as int] == page_at(i, first_source(images[i]->0)));
            }
        }
    }
}

/// Every page is an image, at its position, whose address looks like an image.
proof fn lemma_pages_sourced(images: Seq<Option<PageImage>>, k: int)
    requires
        0 <= k <= images.len(),
    ensures
        forall|a: int|
            #![trigger pages_from(images, k)[a]]
            0 <= a < pages_from(images, k).len() ==> exists|i: int|
                0 <= i < k && #[trigger] images[i] is Some && looks_like_image_of(
                    first_source(images[i]->0),
                ) && pages_from(images, k)[a] == page_at(i, first_source(images[i]->0)),
    decreases k,
{
    if k > 0 {
        lemma_pages_sourced(images, k - 1);
        let rest = pages_from(images, k - 1);
        let all = pages_from(images, k);
        assert forall|a: int| #![trigger all[a]] 0 <= a < all.len() implies exists|i: int|
            0 <= i < k && #[trigger] images[i] is Some && looks_like_image_of(
                first_source(images[i]->0),
            ) && all[a] == page_at(i, first_source(images[i]->0)) by {
            if a < rest.len() {
                assert(all[a] == rest[a]);
                let i = choose|i: int|
                    0 <= i < k - 1 && #[trigger] images[i] is Some && looks_like_image_of(
                        first_source(images[i]->0),
                    ) && rest[a] == page_at(i, first_source(images[i]->0));
                assert(images[i] is Some);
            } else {
                assert(images[k - 1] is Some);
            }
        }
    }
}

/// Every image of a chapter's web page whose address (its `data-original`,
/// else `data-src`, else `src`, the first given) looks like an image is a
/// page, at the image's position.
pub proof fn every_picture_is_a_page(images: Seq<Option<PageImage>>, i: int)
    requires
        0 <= i < images.len(),
        images[i] is Some,
        looks_like_image_of(
            or_else(
                or_else(images[i]->0.data_original@, images[i]->0.data_src@),
                images[i]->0.src@,
            ),
        ),
    ensures
        exists|a: int|
            0 <= a < page_list_of(images).len() && #[trigger] page_list_of(images)[a].index
                == i as i32 && page_list_of(images)[a].url == or_else(
                or_else(images[i]->0.data_original@, images[i]->0.data_src@),
                images[i]->0.src@,
            ),
{
    lemma_pages_listed(images, images.len() as int);
    assert(images[i] is Some);
    let l = pages_from(images, images.len() as int);
    let a = choose|a: int| 0 <= a < l.len() && #[trigger] l[a] == page_at(i, first_source(images[i]->0));
    assert(l[a] == page_list_of(images)[a]);
    assert(page_list_of(images)[a].index == i as i32);
}

/// Every page is an image of the chapter's web page, at its position, whose
/// address (the first given of `data-original`, `data-src`, `src`) looks
/// like an image.
pub proof fn every_page_is_a_picture(images: Seq<Option<PageImage>>, a: int)
    requires
        0 <= a < page_list_of(images).len(),
    ensures
        exists|i: int|
            0 <= i < images.len() && #[trigger] images[i] is Some && {
                let url = or_else(
                    or_else(images[i]->0.data_original@, images[i]->0.data_src@),
                    images[i]->0.src@,
                );
                &&& looks_like_image_of(url)
                &&& page_list_of(images)[a].index == i as i32
                &&& page_list_of(images)[a].url == url
            },
{
    lemma_pages_sourced(images, images.len() as int);
    let l = pages_from(images, images.len() as int);
    assert(l[a] == page_list_of(images)[a]);
    let i = choose|i: int|
        0 <= i < images.len() && #[trigger] images[i] is Some && looks_like_image_of(
            first_source(images[i]->0),
        ) && l[a] == page_at(i, first_source(images[i]->0));
    assert(images[i] is Some);
}

/// Making an address absolute keeps an `http://` or `https://` address as
/// it is, gives a `//` address the scheme `https:`, and puts any other text
/// behind `https://nnhanman.xyz`.
pub proof fn absolute_keeps_or_prefixes(path: Seq<char>)
    ensures
        starts_with(path, "http://"@) || starts_with(path, "https://"@) ==> absolute_of(path)
            == path,
        !starts_with(path, "http://"@) && !starts_with(path, "https://"@) && starts_with(
            path,
            "//"@,
        ) ==> absolute_of(path) == "https:"@ + path,
        !starts_with(path, "http://"@) && !starts_with(path, "https://"@) && !starts_with(
            path,
            "//"@,
        ) ==> absolute_of(path) == "https://nnhanman.xyz"@ + path,
{
}

/// The latest updates have a single page: asked for with an empty query,
/// a listing never has a next page, and past the first page it lists
/// nothing; a search lists what its items list.
pub proof fn updates_have_one_page(
    items: Seq<Option<MangaItem>>,
    query: Seq<char>,
    page_html: Seq<char>,
    page: int,
)
    ensures
        query.len() == 0 ==> !has_more_of(query, page_html, page),
        query.len() == 0 && page > 1 ==> list_mangas_of(items, query, page).len() == 0,
        query.len() == 0 && page <= 1 ==> list_mangas_of(items, query, page) == items_manga(items),
        query.len() > 0 ==> list_mangas_of(items, query, page) == items_manga(items),
{
}

/// The id of a comic in a link to its page `<name>.html` is the page's
/// name: the piece right after the link's first `/comic/`, up to the next
/// `/`, without `.html`, where no `/comic/` follows and the name holds no
/// `.` or `/`.
pub proof fn manga_id_is_page_name(prefix: Seq<char>, name: Seq<char>, rest: Seq<char>)
    requires
        !name.contains('/'),
        !name.contains('.'),
        rest.len() == 0 || rest[0] == '/',
        !has_substring(name + ".html"@ + rest, "/comic/"@),
        forall|j: int|
            0 <= j < prefix.len() ==> !crate::text::occurs_at(
                prefix + "/comic/"@ + (name + ".html"@) + rest,
                "/comic/"@,
                j,
            ),
    ensures
        manga_id_of(prefix + "/comic/"@ + (name + ".html"@) + rest) == name,
{
    reveal_strlit("/comic/");
    reveal_strlit(".html");
    let page = name + ".html"@;
    assert(prefix + "/comic/"@ + page + rest =~= prefix + "/comic/"@ + (page + rest));
    crate::text::lemma_split_last_at_first(prefix, "/comic/"@, page + rest);
    assert(!page.contains('/')) by {
        assert forall|j: int| 0 <= j < page.len() implies page[j] != '/' by {
            if j >= name.len() {
                assert(page[j] == ".html"@[j - name.len()]);
            }
        }
    }
    crate::text::lemma_before_char_of_piece(page, rest, '/');
    crate::text::lemma_replace_final(name, ".html"@);
}

/// The latest updates are at `https://nnhanman.xyz/update`, a search at
/// `https://nnhanman.xyz/search/` with the encoded query and the page
/// number; a comic's page is `https://nnhanman.xyz/comic/<id>.html`.
pub proof fn addresses_of_the_site(query: Seq<char>, encoded_query: Seq<char>, page: int, id: Seq<char>)
    ensures
        query.len() == 0 && page <= 1 ==> list_url_of(query, encoded_query, page) == Some(
            "https://nnhanman.xyz/update"@,
        ),
        query.len() > 0 ==> list_url_of(query, encoded_query, page) == Some(
            "https://nnhanman.xyz/search/"@ + encoded_query + "/page/"@ + decimal(page),
        ),
        manga_url_of(id) == "https://nnhanman.xyz/comic/"@ + id + ".html"@,
{
    reveal_strlit("https://nnhanman.xyz");
    reveal_strlit("/update");
    reveal_strlit("https://nnhanman.xyz/update");
    reveal_strlit("/search/");
    reveal_strlit("https://nnhanman.xyz/search/");
    reveal_strlit("/comic/");
    reveal_strlit("https://nnhanman.xyz/comic/");
    assert(WWW_URL@ + "/update"@ =~= "https://nnhanman.xyz/update"@);
    assert(WWW_URL@ + "/search/"@ =~= "https://nnhanman.xyz/search/"@);
    assert(WWW_URL@ + "/comic/"@ =~= "https://nnhanman.xyz/comic/"@);
}

/// A search listing has a next page exactly when its HTML holds `/page/`
/// directly followed by the decimal number of the next page.
pub proof fn next_page_needs_its_link(query: Seq<char>, page_html: Seq<char>, page: int)
    requires
        query.len() > 0,
    ensures
        has_more_of(query, page_html, page) <==> exists|i: int|
            crate::text::occurs_at(page_html, "/page/"@, i) && #[trigger] crate::text::occurs_at(
                page_html,
                decimal(page + 1),
                i + 6,
            ),
{
    reveal_strlit("/page/");
    let p = "/page/"@;
    let q = decimal(page + 1);
    if has_more_of(query, page_html, page) {
        let i = choose|i: int| crate::text::occurs_at(page_html, p + q, i);
        crate::text::lemma_occurs_at_concat(page_html, p, q, i);
        assert(crate::text::occurs_at(page_html, p, i) && crate::text::occurs_at(page_html, q, i + 6));
    }
    if exists|i: int|
        crate::text::occurs_at(page_html, p, i) && #[trigger] crate::text::occurs_at(page_html, q, i + 6) {
        let i = choose|i: int|
            crate::text::occurs_at(page_html, p, i) && #[trigger] crate::text::occurs_at(
                page_html,
                q,
                i + 6,
            );
        crate::text::lemma_occurs_at_concat(page_html, p, q, i);
        assert(crate::text::occurs_at(page_html, p + q, i));
    }
}

/// The details of a comic carry its page's title, cover and categories,
/// leave its status unknown, rate it not safe for work, and read it as a scroll.
pub proof fn details_carry_page_values(id: Seq<char>, page: MangaDetailsPage)
    ensures
        details_of(id, page).id == id,
        details_of(id, page).title == page.title@,
        details_of(id, page).cover == page.cover@,
        details_of(id, page).categories == page.categories@.map_values(|c: String| c@),
        details_of(id, page).artist.len() == 0,
        details_of(id, page).status == MangaStatus::Unknown,
        details_of(id, page).nsfw == MangaContentRating::Nsfw,
        details_of(id, page).viewer == MangaViewer::Scroll,
{
}

/// The address of a chapter: kept where it begins with `http`, made
/// absolute where it begins with `/`, and otherwise made absolute with a
/// `/` put in front.
pub proof fn chapter_address_rule(chapter_id: Seq<char>)
    ensures
        starts_with(chapter_id, "http"@) ==> page_list_url_of(chapter_id) == chapter_id,
        !starts_with(chapter_id, "http"@) && starts_with(chapter_id, "/"@) ==> page_list_url_of(
            chapter_id,
        ) == absolute_of(chapter_id),
        !starts_with(chapter_id, "http"@) && !starts_with(chapter_id, "/"@) ==> page_list_url_of(
            chapter_id,
        ) == absolute_of(seq!['/'] + chapter_id),
{
}

} // verus!
