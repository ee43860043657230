//! The rules of the catalogue at kxmanhua.com: where its pages are, and what
//! of the values read from them becomes comics, chapters and pages.
use vstd::prelude::*;

use crate::model::{
    chapters_view, listed_manga, mangas_view, pages_view, strings_view, Chapter, ChapterView,
    Manga, MangaContentRating, MangaPageResult, MangaStatus, MangaView, MangaViewer, Page,
    PageView,
};
use crate::text::{
    ascii_lower, ascii_lower_exec, before_char, before_char_exec, chars_of, contains_exec,
    decimal, decimal_exec, has_substring, join, occurs_at, replace_all, replace_all_exec, split_last,
    split_last_exec, starts_with, starts_with_exec, string_of, trim, trim_exec,
};

verus! {

/// The catalogue's address.
pub const WWW_URL: &'static str = "https://kxmanhua.com";

/// The browser that requests to the catalogue present themselves as.
pub const USER_AGENT: &'static str = "Mozilla/5.0 (iPhone; CPU iPhone OS 16_6 like Mac OS X) AppleWebKit/605.1.15 (KHTML, like Gecko) Version/16.6 Mobile/15E148 Safari/604.1";

// ---------------------------------------------------------------------------
// Addresses
// ---------------------------------------------------------------------------

/// The id of a comic in a link to it: what follows the last `/manga/`, up to the next `/`.
pub open spec fn manga_id_of(href: Seq<char>) -> Seq<char> {
    before_char(split_last(href, "/manga/"@), '/')
}

/// `url` made absolute: kept where it begins with `http://` or `https://`,
/// otherwise put behind the catalogue's address.
pub open spec fn absolute_of(url: Seq<char>) -> Seq<char> {
    if starts_with(url, "http://"@) || starts_with(url, "https://"@) {
        url
    } else {
        WWW_URL@ + url
    }
}

/// The id of the comic that `href` links to.
pub fn parse_manga_id(href: &str) -> (id: String)
    ensures
        id@ == manga_id_of(href@),
{
    proof {
        reveal_strlit("/manga/");
    }
    let h = chars_of(href);
    let tail = split_last_exec(h.as_slice(), chars_of("/manga/").as_slice());
    string_of(before_char_exec(tail.as_slice(), '/').as_slice())
}

/// `url` made absolute against the catalogue's address.
pub fn to_absolute(url: &str) -> (r: String)
    ensures
        r@ == absolute_of(url@),
{
    let u = chars_of(url);
    if starts_with_exec(u.as_slice(), chars_of("http://").as_slice()) || starts_with_exec(
        u.as_slice(),
        chars_of("https://").as_slice(),
    ) {
        string_of(u.as_slice())
    } else {
        string_of(join(chars_of(WWW_URL).as_slice(), u.as_slice()).as_slice())
    }
}

// ---------------------------------------------------------------------------
// Listing
// ---------------------------------------------------------------------------

/// The address of a listing page: the whole library where `query` is
/// empty, a search for `encoded_query` (the query encoded for a URL) otherwise.
pub open spec fn list_url_of(query: Seq<char>, encoded_query: Seq<char>, page: int) -> Seq<char> {
    if query.len() == 0 {
        WWW_URL@ + "/manga/library?type=0&complete=1&page="@ + decimal(page) + "&orderby=1"@
    } else {
        WWW_URL@ + "/manga/search?keyword="@ + encoded_query + "&page="@ + decimal(page)
    }
}

/// Whether a listing page links to the page after `page`.
pub open spec fn has_more_of(page_html: Seq<char>, page: int) -> bool {
    has_substring(page_html, "page="@ + decimal(page + 1))
}

/// What a card of a listing shows, read from its web page.
#[derive(Debug)]
pub struct MangaCard {
    /// The `href` of the card's title link.
    pub href: String,
    /// The text of the card's title link.
    pub title: String,
    /// The `data-setbg` of the card's picture.
    pub set_bg: String,
    /// The `src` of the card's image.
    pub image_src: String,
}

/// The comic that a card lists, if it lists one: its link must lead to a
/// comic with an id, and it must have a title.
#[verifier::opaque]
pub open spec fn card_manga(card: MangaCard) -> Option<MangaView> {
    let id = manga_id_of(card.href@);
    if !has_substring(card.href@, "/manga/"@) || id.len() == 0 || card.title@.len() == 0 {
        None
    } else {
        let cover = if card.set_bg@.len() == 0 {
            card.image_src@
        } else {
            card.set_bg@
        };
        Some(listed_manga(id, card.title@, cover))
    }
}

/// The comics that the cards list, in order; `None` stands for an element that is no card.
pub open spec fn cards_manga(cards: Seq<Option<MangaCard>>) -> Seq<MangaView>
    decreases cards.len(),
{
    if cards.len() == 0 {
        Seq::empty()
    } else {
        let rest = cards_manga(cards.drop_last());
        match cards.last() {
            Some(card) => match card_manga(card) {
                Some(m) => rest.push(m),
                None => rest,
            },
            None => rest,
        }
    }
}

/// The address of page `page` of the library, or of a search for `query`,
/// whose URL-encoded form is `encoded_query`.
pub fn manga_list_url(query: &str, encoded_query: &str, page: i32) -> (url: String)
    ensures
        url@ == list_url_of(query@, encoded_query@, page as int),
{
    let number = decimal_exec(page as i64);
    let base = chars_of(WWW_URL);
    if query.is_empty() {
        let a = join(base.as_slice(), chars_of("/manga/library?type=0&complete=1&page=").as_slice());
        let b = join(a.as_slice(), number.as_slice());
        let c = join(b.as_slice(), chars_of("&orderby=1").as_slice());
        string_of(c.as_slice())
    } else {
        let a = join(base.as_slice(), chars_of("/manga/search?keyword=").as_slice());
        let b = join(a.as_slice(), chars_of(encoded_query).as_slice());
        let c = join(b.as_slice(), chars_of("&page=").as_slice());
        let d = join(c.as_slice(), number.as_slice());
        string_of(d.as_slice())
    }
}

/// Whether the listing page `page_html` of page `page` links to the next page.
pub fn has_more(page_html: &str, page: i32) -> (b: bool)
    requires
        page < i32::MAX,
    ensures
        b == has_more_of(page_html@, page as int),
{
    let next = join(chars_of("page=").as_slice(), decimal_exec((page + 1) as i64).as_slice());
    contains_exec(chars_of(page_html).as_slice(), next.as_slice())
}

/// The comic that one card lists, if any.
fn card_to_manga(card: &MangaCard) -> (r: Option<Manga>)
    ensures
        match card_manga(*card) {
            Some(v) => r matches Some(m) && m@ == v,
            None => r is None,
        },
{
    reveal(card_manga);
    let href = chars_of(card.href.as_str());
    if !contains_exec(href.as_slice(), chars_of("/manga/").as_slice()) {
        return None;
    }
    let id = parse_manga_id(card.href.as_str());
    if id.as_str().is_empty() || card.title.as_str().is_empty() {
        return None;
    }
    let cover = if card.set_bg.as_str().is_empty() {
        card.image_src.clone()
    } else {
        card.set_bg.clone()
    };
    let m = Manga {
        id,
        title: card.title.clone(),
        cover,
        author: String::new(),
        artist: String::new(),
        description: String::new(),
        url: String::new(),
        categories: Vec::new(),
        status: MangaStatus::Unknown,
        nsfw: MangaContentRating::Safe,
        viewer: MangaViewer::Default,
    };
    assert(strings_view(m.categories@) =~= Seq::<Seq<char>>::empty());
    Some(m)
}

/// The comics listed by the cards of a listing page, in order.
pub fn parse_manga_cards(cards: &Vec<Option<MangaCard>>) -> (list: Vec<Manga>)
    ensures
        mangas_view(list@) == cards_manga(cards@),
{
    let mut list: Vec<Manga> = Vec::new();
    let mut i: usize = 0;
    while i < cards.len()
        invariant
            i <= cards@.len(),
            mangas_view(list@) == cards_manga(cards@.take(i as int)),
        decreases cards@.len() - i,
    {
        assert(cards@.take(i + 1).drop_last() =~= cards@.take(i as int));
        assert(cards@.take(i + 1).last() == cards@[i as int]);
        if let Some(card) = &cards[i] {
            if let Some(m) = card_to_manga(card) {
                let ghost before = list@;
                list.push(m);
                assert(mangas_view(list@) =~= mangas_view(before).push(m@));
            }
        }
        i = i + 1;
    }
    assert(cards@.take(cards@.len() as int) =~= cards@);
    list
}

/// A listing page: the comics on the cards of page `page`, and whether
/// the page links to the next one.
pub fn manga_list(cards: &Vec<Option<MangaCard>>, page_html: &str, page: i32) -> (r: MangaPageResult)
    requires
        page < i32::MAX,
    ensures
        mangas_view(r.manga@) == cards_manga(cards@),
        r.has_more == has_more_of(page_html@, page as int),
{
    MangaPageResult { manga: parse_manga_cards(cards), has_more: has_more(page_html, page) }
}

// ---------------------------------------------------------------------------
// Details
// ---------------------------------------------------------------------------

/// The address of the page of comic `id`.
pub open spec fn manga_url_of(id: Seq<char>) -> Seq<char> {
    WWW_URL@ + "/manga/"@ + id
}

/// The author named in `text`, with the label "作者：" or "作者:" taken out
/// and the white space around it trimmed.
pub open spec fn author_of(text: Seq<char>) -> Seq<char> {
    trim(
        replace_all(
            replace_all(text, "\u{4f5c}\u{8005}\u{ff1a}"@, Seq::empty()),
            "\u{4f5c}\u{8005}:"@,
            Seq::empty(),
        ),
    )
}

/// The status that a status label states: ongoing where it says "连载" or
/// "ongoing", else completed where it says "完结" or "completed", else
/// unknown; the English words in any case of ASCII letters.
pub open spec fn status_of(text: Seq<char>) -> MangaStatus {
    if has_substring(text, "\u{8fde}\u{8f7d}"@) || has_substring(ascii_lower(text), "ongoing"@) {
        MangaStatus::Ongoing
    } else if has_substring(text, "\u{5b8c}\u{7ed3}"@) || has_substring(
        ascii_lower(text),
        "completed"@,
    ) {
        MangaStatus::Completed
    } else {
        MangaStatus::Unknown
    }
}

/// The first text of `paragraphs` that is not blank.
pub open spec fn first_nonblank(paragraphs: Seq<Seq<char>>) -> Option<Seq<char>>
    decreases paragraphs.len(),
{
    if paragraphs.len() == 0 {
        None
    } else if trim(paragraphs[0]).len() > 0 {
        Some(paragraphs[0])
    } else {
        first_nonblank(paragraphs.drop_first())
    }
}

/// The description of a comic: its first paragraph that is not blank, or,
/// where all are blank, the page's meta description.
pub open spec fn description_of(paragraphs: Seq<Seq<char>>, meta: Seq<char>) -> Seq<char> {
    match first_nonblank(paragraphs) {
        Some(p) => p,
        None => meta,
    }
}

/// What the page of a comic shows, read from it.
#[derive(Debug)]
pub struct MangaDetailsPage {
    /// The title heading.
    pub title: String,
    /// The `data-setbg` of the picture.
    pub cover: String,
    /// The text of the first author element, `None` where there is none.
    pub author_text: Option<String>,
    /// The texts of the category links.
    pub categories: Vec<String>,
    /// The text of the status label.
    pub status_text: String,
    /// The texts of the description paragraphs.
    pub paragraphs: Vec<String>,
    /// The content of the `description` meta element.
    pub meta_description: String,
}

/// The comic `id` as its page describes it.
pub open spec fn details_of(id: Seq<char>, page: MangaDetailsPage) -> MangaView {
    MangaView {
        id,
        title: page.title@,
        cover: page.cover@,
        author: match page.author_text {
            Some(t) => author_of(t@),
            None => Seq::empty(),
        },
        artist: Seq::empty(),
        description: description_of(strings_view(page.paragraphs@), page.meta_description@),
        url: manga_url_of(id),
        categories: strings_view(page.categories@),
        status: status_of(page.status_text@),
        nsfw: MangaContentRating::Nsfw,
        viewer: MangaViewer::Scroll,
    }
}

/// The address of the page of comic `id`.
pub fn manga_details_url(id: &str) -> (url: String)
    ensures
        url@ == manga_url_of(id@),
{
    let a = join(chars_of(WWW_URL).as_slice(), chars_of("/manga/").as_slice());
    string_of(join(a.as_slice(), chars_of(id).as_slice()).as_slice())
}

/// The author named by the text of an author element.
pub fn clean_author(text: &str) -> (author: String)
    ensures
        author@ == author_of(text@),
{
    proof {
        reveal_strlit("\u{4f5c}\u{8005}\u{ff1a}");
        reveal_strlit("\u{4f5c}\u{8005}:");
    }
    let empty: Vec<char> = Vec::new();
    let a = replace_all_exec(
        chars_of(text).as_slice(),
        chars_of("\u{4f5c}\u{8005}\u{ff1a}").as_slice(),
        empty.as_slice(),
    );
    let b = replace_all_exec(a.as_slice(), chars_of("\u{4f5c}\u{8005}:").as_slice(), empty.as_slice());
    assert(empty@ =~= Seq::<char>::empty());
    string_of(trim_exec(b.as_slice()).as_slice())
}

/// The status that the text of a status label states.
pub fn parse_status(text: &str) -> (status: MangaStatus)
    ensures
        status == status_of(text@),
{
    let t = chars_of(text);
    let lower = ascii_lower_exec(t.as_slice());
    if contains_exec(t.as_slice(), chars_of("\u{8fde}\u{8f7d}").as_slice()) || contains_exec(
        lower.as_slice(),
        chars_of("ongoing").as_slice(),
    ) {
        MangaStatus::Ongoing
    } else if contains_exec(t.as_slice(), chars_of("\u{5b8c}\u{7ed3}").as_slice())
        || contains_exec(lower.as_slice(), chars_of("completed").as_slice()) {
        MangaStatus::Completed
    } else {
        MangaStatus::Unknown
    }
}

/// The description of a comic from its paragraphs and its meta description.
pub fn pick_description(paragraphs: &Vec<String>, meta_description: &str) -> (d: String)
    ensures
        d@ == description_of(strings_view(paragraphs@), meta_description@),
{
    let ghost ps = strings_view(paragraphs@);
    let mut i: usize = 0;
    assert(ps.skip(0) =~= ps);
    while i < paragraphs.len()
        invariant
            i <= paragraphs@.len(),
            ps == strings_view(paragraphs@),
            first_nonblank(ps) == first_nonblank(ps.skip(i as int)),
        decreases paragraphs@.len() - i,
    {
        let p = &paragraphs[i];
        assert(ps.skip(i as int)[0] == p@);
        if trim_exec(chars_of(p.as_str()).as_slice()).len() > 0 {
            return p.clone();
        }
        assert(ps.skip(i as int).drop_first() =~= ps.skip(i + 1));
        i = i + 1;
    }
    assert(ps.skip(i as int).len() == 0);
    string_of(chars_of(meta_description).as_slice())
}

/// The comic `id` as its page describes it.
pub fn manga_details(id: String, page: MangaDetailsPage) -> (m: Manga)
    ensures
        m@ == details_of(id@, page),
{
    let url = manga_details_url(id.as_str());
    let author = match &page.author_text {
        Some(t) => clean_author(t.as_str()),
        None => String::new(),
    };
    let description = pick_description(&page.paragraphs, page.meta_description.as_str());
    let status = parse_status(page.status_text.as_str());
    let MangaDetailsPage { title, cover, author_text: _, categories, status_text: _, paragraphs: _, meta_description: _ } = page;
    Manga {
        id,
        title,
        cover,
        author,
        artist: String::new(),
        description,
        url,
        categories,
        status,
        nsfw: MangaContentRating::Nsfw,
        viewer: MangaViewer::Scroll,
    }
}

// ---------------------------------------------------------------------------
// Chapters
// ---------------------------------------------------------------------------

/// A chapter link of a comic's page, read from it.
#[derive(Debug)]
pub struct ChapterLink {
    /// The link's `href`.
    pub href: String,
    /// The link's text.
    pub text: String,
}

/// The chapter that a link numbered `number` leads to, if it leads to one:
/// its address must hold both `/manga/` and `/detail/`.
pub open spec fn link_chapter(link: ChapterLink, number: nat) -> Option<ChapterView> {
    if has_substring(link.href@, "/manga/"@) && has_substring(link.href@, "/detail/"@) {
        Some(
            ChapterView {
                id: link.href@,
                title: trim(link.text@),
                number,
                url: absolute_of(link.href@),
            },
        )
    } else {
        None
    }
}

/// The chapters among the first `k` of `links`, in order; the link at
/// position `i` is numbered `total - i`.
pub open spec fn chapters_from(links: Seq<Option<ChapterLink>>, k: int, total: nat) -> Seq<
    ChapterView,
>
    decreases k,
{
    if k <= 0 {
        Seq::empty()
    } else {
        let rest = chapters_from(links, k - 1, total);
        match links[k - 1] {
            Some(link) => match link_chapter(link, (total - (k - 1)) as nat) {
                Some(c) => rest.push(c),
                None => rest,
            },
            None => rest,
        }
    }
}

/// The chapters that the chapter links of a comic's page lead to, in page
/// order, numbered down from the number of links; `None` stands for an
/// element that is no link.
pub open spec fn chapter_list_of(links: Seq<Option<ChapterLink>>) -> Seq<ChapterView> {
    chapters_from(links, links.len() as int, links.len())
}

/// The chapters that the chapter links of a comic's page lead to.
pub fn chapter_list(links: &Vec<Option<ChapterLink>>) -> (chapters: Vec<Chapter>)
    ensures
        chapters_view(chapters@) == chapter_list_of(links@),
{
    let len = links.len();
    let mut chapters: Vec<Chapter> = Vec::new();
    let mut i: usize = 0;
    while i < len
        invariant
            len == links@.len(),
            i <= len,
            chapters_view(chapters@) == chapters_from(links@, i as int, len as nat),
        decreases len - i,
    {
        if let Some(link) = &links[i] {
            let href = chars_of(link.href.as_str());
            if contains_exec(href.as_slice(), chars_of("/manga/").as_slice()) && contains_exec(
                href.as_slice(),
                chars_of("/detail/").as_slice(),
            ) {
                let c = Chapter {
                    id: link.href.clone(),
                    title: string_of(trim_exec(chars_of(link.text.as_str()).as_slice()).as_slice()),
                    number: len - i,
                    url: to_absolute(link.href.as_str()),
                };
                let ghost before = chapters@;
                chapters.push(c);
                assert(chapters_view(chapters@) =~= chapters_view(
                    before,
                ).push(c@));
            }
        }
        i = i + 1;
    }
    chapters
}

// ---------------------------------------------------------------------------
// Pages
// ---------------------------------------------------------------------------

/// The address of the chapter `chapter_id`: itself where it begins with
/// `http`, else made absolute.
pub open spec fn page_list_url_of(chapter_id: Seq<char>) -> Seq<char> {
    if starts_with(chapter_id, "http"@) {
        chapter_id
    } else {
        absolute_of(chapter_id)
    }
}

/// Whether an image address is a page of a comic: an absolute address
/// into the catalogue's comic images.
pub open spec fn is_page_image(src: Seq<char>) -> bool {
    starts_with(src, "http"@) && has_substring(src, "/webtoon/content/"@)
}

/// The pages among the first `k` image sources, in order, each with its position.
pub open spec fn pages_from(srcs: Seq<Option<String>>, k: int) -> Seq<PageView>
    decreases k,
{
    if k <= 0 {
        Seq::empty()
    } else {
        let rest = pages_from(srcs, k - 1);
        match srcs[k - 1] {
            Some(src) => if is_page_image(src@) {
                rest.push(PageView { index: (k - 1) as i32, url: src@ })
            } else {
                rest
            },
            None => rest,
        }
    }
}

/// The pages of a chapter among the `src`s of the images of its web page;
/// `None` stands for an element that is no image.
pub open spec fn page_list_of(srcs: Seq<Option<String>>) -> Seq<PageView> {
    pages_from(srcs, srcs.len() as int)
}

/// The address of the chapter `chapter_id`.
pub fn page_list_url(chapter_id: String) -> (url: String)
    ensures
        url@ == page_list_url_of(chapter_id@),
{
    if starts_with_exec(chars_of(chapter_id.as_str()).as_slice(), chars_of("http").as_slice()) {
        chapter_id
    } else {
        to_absolute(chapter_id.as_str())
    }
}

/// The pages of a chapter among the `src`s of the images of its web page.
pub fn page_list(srcs: &Vec<Option<String>>) -> (pages: Vec<Page>)
    ensures
        pages_view(pages@) == page_list_of(srcs@),
{
    let mut pages: Vec<Page> = Vec::new();
    let mut i: usize = 0;
    while i < srcs.len()
        invariant
            i <= srcs@.len(),
            pages_view(pages@) == pages_from(srcs@, i as int),
        decreases srcs@.len() - i,
    {
        if let Some(src) = &srcs[i] {
            let s = chars_of(src.as_str());
            if starts_with_exec(s.as_slice(), chars_of("http").as_slice()) && contains_exec(
                s.as_slice(),
                chars_of("/webtoon/content/").as_slice(),
            ) {
                let p = Page { index: i as i32, url: src.clone() };
                let ghost before = pages@;
                pages.push(p);
                assert(pages_view(pages@) =~= pages_view(before).push(
                    p@,
                ));
            }
        }
        i = i + 1;
    }
    pages
}

// ---------------------------------------------------------------------------
// Laws
// ---------------------------------------------------------------------------

/// A comic id taken from a link never holds a `/`.
pub proof fn manga_id_has_no_slash(href: Seq<char>)
    ensures
        !manga_id_of(href).contains('/'),
{
    crate::text::lemma_before_char_excludes(split_last(href, "/manga/"@), '/');
}

/// Making an address absolute gives an address that begins with
/// `http://` or `https://`, and leaves such an address as it is.
pub proof fn absolute_is_absolute(url: Seq<char>)
    ensures
        starts_with(absolute_of(url), "http://"@) || starts_with(absolute_of(url), "https://"@),
        absolute_of(absolute_of(url)) == absolute_of(url),
{
    reveal_strlit("https://kxmanhua.com");
    reveal_strlit("https://");
    if !(starts_with(url, "http://"@) || starts_with(url, "https://"@)) {
        let v = WWW_URL@ + url;
        assert(v.subrange(0, 8) =~= "https://"@);
        assert(starts_with(v, "https://"@));
    }
}

/// Whether a listed comic has an id and a title, and its id holds no `/`.
pub open spec fn well_listed(m: MangaView) -> bool {
    &&& m.id.len() > 0
    &&& m.title.len() > 0
    &&& !m.id.contains('/')
}

/// Every comic of a listing has an id free of `/` and a title.
pub proof fn listed_mangas_are_well_formed(cards: Seq<Option<MangaCard>>)
    ensures
        forall|k: int| 0 <= k < cards_manga(cards).len() ==> well_listed(#[trigger] cards_manga(cards)[k]),
    decreases cards.len(),
{
    if cards.len() > 0 {
        listed_mangas_are_well_formed(cards.drop_last());
        if let Some(card) = cards.last() {
            manga_id_has_no_slash(card.href@);
            reveal(card_manga);
        }
        let rest = cards_manga(cards.drop_last());
        let all = cards_manga(cards);
        assert forall|k: int| 0 <= k < all.len() implies well_listed(#[trigger] all[k]) by {
            if k < rest.len() {
                assert(all[k] == rest[k]);
            }
        }
    }
}

/// The chapters among the first `k` links are numbered above `total - k`,
/// strictly downwards, and each leads to a chapter address.
proof fn lemma_chapters_from(links: Seq<Option<ChapterLink>>, k: int, total: nat)
    requires
        0 <= k <= links.len() <= total,
    ensures
        forall|a: int| 0 <= a < chapters_from(links, k, total).len() ==> {
            let c = #[trigger] chapters_from(links, k, total)[a];
            &&& total - k < c.number <= total
            &&& has_substring(c.id, "/manga/"@)
            &&& has_substring(c.id, "/detail/"@)
            &&& c.url == absolute_of(c.id)
        },
        forall|a: int, b: int|
            0 <= a < b < chapters_from(links, k, total).len() ==> #[trigger] chapters_from(
                links,
                k,
                total,
            )[a].number > #[trigger] chapters_from(links, k, total)[b].number,
    decreases k,
{
    if k > 0 {
        lemma_chapters_from(links, k - 1, total);
        let rest = chapters_from(links, k - 1, total);
        let all = chapters_from(links, k, total);
        assert forall|a: int| 0 <= a < all.len() implies {
            let c = #[trigger] all[a];
            &&& total - k < c.number <= total
            &&& has_substring(c.id, "/manga/"@)
            &&& has_substring(c.id, "/detail/"@)
            &&& c.url == absolute_of(c.id)
        } by {
            if a < rest.len() {
                assert(all[a] == rest[a]);
            }
        }
        assert forall|a: int, b: int| 0 <= a < b < all.len() implies #[trigger] all[a].number
            > #[trigger] all[b].number by {
            assert(all[a] == rest[a]);
            if b < rest.len() {
                assert(all[b] == rest[b]);
            }
        }
    }
}

/// The chapters of a comic are numbered from the number of chapter links
/// down, strictly, never below 1, and each leads to an address holding
/// `/manga/` and `/detail/`.
pub proof fn chapters_are_numbered_downwards(links: Seq<Option<ChapterLink>>)
    ensures
        forall|a: int| 0 <= a < chapter_list_of(links).len() ==> {
            let c = #[trigger] chapter_list_of(links)[a];
            &&& 1 <= c.number <= links.len()
            &&& has_substring(c.id, "/manga/"@)
            &&& has_substring(c.id, "/detail/"@)
        },
        forall|a: int, b: int|
            0 <= a < b < chapter_list_of(links).len() ==> #[trigger] chapter_list_of(links)[a].number
                > #[trigger] chapter_list_of(links)[b].number,
{
    lemma_chapters_from(links, links.len() as int, links.len());
}

/// The pages of a listed chapter are asked for at the chapter's address,
/// unless its link begins with `http` and is no `http://` or `https://` address.
pub proof fn chapter_pages_are_asked_at_chapter_url(links: Seq<Option<ChapterLink>>, a: int)
    requires
        0 <= a < chapter_list_of(links).len(),
        starts_with(chapter_list_of(links)[a].id, "http"@) ==> starts_with(
            chapter_list_of(links)[a].id,
            "http://"@,
        ) || starts_with(chapter_list_of(links)[a].id, "https://"@),
    ensures
        page_list_url_of(chapter_list_of(links)[a].id) == chapter_list_of(links)[a].url,
{
    lemma_chapters_from(links, links.len() as int, links.len());
    let id = chapter_list_of(links)[a].id;
    reveal_strlit("http");
    reveal_strlit("http://");
    reveal_strlit("https://");
    if starts_with(id, "http://"@) {
        assert(id.subrange(0, 4) =~= "http"@) by {
            assert forall|i: int| 0 <= i < 4 implies id[i] == "http"@[i] by {
                assert(id[i] == id.subrange(0, 7)[i]);
            }
        }
    } else if starts_with(id, "https://"@) {
        assert(id.subrange(0, 4) =~= "http"@) by {
            assert forall|i: int| 0 <= i < 4 implies id[i] == "http"@[i] by {
                assert(id[i] == id.subrange(0, 8)[i]);
            }
        }
    }
}

/// The pages among the first `k` images come in page order, each with an
/// image address and a position below `k`.
proof fn lemma_pages_from(srcs: Seq<Option<String>>, k: int)
    requires
        0 <= k <= srcs.len(),
        srcs.len() <= i32::MAX + 1,
    ensures
        forall|a: int| 0 <= a < pages_from(srcs, k).len() ==> {
            let p = #[trigger] pages_from(srcs, k)[a];
            &&& 0 <= p.index < k
            &&& is_page_image(p.url)
        },
        forall|a: int, b: int|
            0 <= a < b < pages_from(srcs, k).len() ==> #[trigger] pages_from(srcs, k)[a].index
                < #[trigger] pages_from(srcs, k)[b].index,
    decreases k,
{
    if k > 0 {
        lemma_pages_from(srcs, k - 1);
        let rest = pages_from(srcs, k - 1);
        let all = pages_from(srcs, k);
        assert forall|a: int| 0 <= a < all.len() implies {
            let p = #[trigger] all[a];
            &&& 0 <= p.index < k
            &&& is_page_image(p.url)
        } by {
            if a < rest.len() {
                assert(all[a] == rest[a]);
            }
        }
        assert forall|a: int, b: int| 0 <= a < b < all.len() implies #[trigger] all[a].index
            < #[trigger] all[b].index by {
            assert(all[a] == rest[a]);
            if b < rest.len() {
                assert(all[b] == rest[b]);
            }
        }
    }
}

/// The pages of a chapter come in the order of their images on the web
/// page, each an absolute address into the catalogue's comic images; on
/// pages with more images than an `i32` counts the positions wrap.
pub proof fn pages_keep_page_order(srcs: Seq<Option<String>>)
    requires
        srcs.len() <= i32::MAX + 1,
    ensures
        forall|a: int| 0 <= a < page_list_of(srcs).len() ==> {
            let p = #[trigger] page_list_of(srcs)[a];
            &&& 0 <= p.index < srcs.len()
            &&& is_page_image(p.url)
        },
        forall|a: int, b: int|
            0 <= a < b < page_list_of(srcs).len() ==> #[trigger] page_list_of(srcs)[a].index
                < #[trigger] page_list_of(srcs)[b].index,
{
    lemma_pages_from(srcs, srcs.len() as int);
}

/// A listing page has a next page exactly when its HTML holds the text
/// `page=` directly followed by the decimal number of the next page; HTML
/// without `page=` never has one.
pub proof fn next_page_needs_its_link(page_html: Seq<char>, page: int)
    ensures
        has_more_of(page_html, page) <==> exists|i: int|
            occurs_at(page_html, "page="@, i) && #[trigger] occurs_at(
                page_html,
                decimal(page + 1),
                i + 5,
            ),
        !has_substring(page_html, "page="@) ==> !has_more_of(page_html, page),
{
    reveal_strlit("page=");
    let p = "page="@;
    let q = decimal(page + 1);
    if has_more_of(page_html, page) {
        let i = choose|i: int| occurs_at(page_html, p + q, i);
        crate::text::lemma_occurs_at_concat(page_html, p, q, i);
        assert(occurs_at(page_html, p, i) && occurs_at(page_html, q, i + 5));
    }
    if exists|i: int| occurs_at(page_html, p, i) && #[trigger] occurs_at(page_html, q, i + 5) {
        let i = choose|i: int| occurs_at(page_html, p, i) && #[trigger] occurs_at(page_html, q, i + 5);
        crate::text::lemma_occurs_at_concat(page_html, p, q, i);
        assert(occurs_at(page_html, p + q, i));
    }
}

/// The status of a comic follows the words of its label: "连载" or
/// "ongoing" (in any case of ASCII letters) make it ongoing; otherwise
/// "完结" or "completed" make it completed; a label with none of them
/// leaves it unknown.
pub proof fn status_follows_label_words(text: Seq<char>)
    ensures
        has_substring(text, "\u{8fde}\u{8f7d}"@) ==> status_of(text) == MangaStatus::Ongoing,
        has_substring(ascii_lower(text), "ongoing"@) ==> status_of(text) == MangaStatus::Ongoing,
        !has_substring(text, "\u{8fde}\u{8f7d}"@) && !has_substring(ascii_lower(text), "ongoing"@)
            && has_substring(text, "\u{5b8c}\u{7ed3}"@) ==> status_of(text)
            == MangaStatus::Completed,
        !has_substring(text, "\u{8fde}\u{8f7d}"@) && !has_substring(ascii_lower(text), "ongoing"@)
            && has_substring(ascii_lower(text), "completed"@) ==> status_of(text)
            == MangaStatus::Completed,
        !has_substring(text, "\u{8fde}\u{8f7d}"@) && !has_substring(ascii_lower(text), "ongoing"@)
            && !has_substring(text, "\u{5b8c}\u{7ed3}"@) && !has_substring(
            ascii_lower(text),
            "completed"@,
        ) ==> status_of(text) == MangaStatus::Unknown,
{
}

/// The author of a comic is the text of its author element with each
/// "作者：" and "作者:" label taken out and then trimmed: one unbroken
/// piece of the unlabelled text, everything around which is white space.
pub proof fn author_is_label_free_text_trimmed(text: Seq<char>) -> (bounds: (int, int))
    ensures
        ({
            let unlabelled = replace_all(
                replace_all(text, "\u{4f5c}\u{8005}\u{ff1a}"@, Seq::empty()),
                "\u{4f5c}\u{8005}:"@,
                Seq::empty(),
            );
            &&& 0 <= bounds.0 <= bounds.1 <= unlabelled.len()
            &&& author_of(text) == unlabelled.subrange(bounds.0, bounds.1)
            &&& forall|j: int| 0 <= j < bounds.0 ==> crate::text::is_white_space(#[trigger] unlabelled[j])
            &&& forall|j: int| bounds.1 <= j < unlabelled.len() ==> crate::text::is_white_space(
                #[trigger] unlabelled[j],
            )
            &&& bounds.0 < bounds.1 ==> !crate::text::is_white_space(unlabelled[bounds.0])
                && !crate::text::is_white_space(unlabelled[bounds.1 - 1])
        }),
{
    let unlabelled = replace_all(
        replace_all(text, "\u{4f5c}\u{8005}\u{ff1a}"@, Seq::empty()),
        "\u{4f5c}\u{8005}:"@,
        Seq::empty(),
    );
    crate::text::lemma_trim_bounds(unlabelled)
}

/// Whether a link address leads to a chapter: it holds `/manga/` and `/detail/`.
spec fn leads_to_chapter(href: Seq<char>) -> bool {
    has_substring(href, "/manga/"@) && has_substring(href, "/detail/"@)
}

/// The chapter that `link`, numbered `number`, stands for.
spec fn made_chapter(link: ChapterLink, number: nat) -> ChapterView {
    ChapterView {
        id: link.href@,
        title: trim(link.text@),
        number,
        url: absolute_of(link.href@),
    }
}

/// Over the first `k` links, every chapter link is listed.
proof fn lemma_chapters_listed(links: Seq<Option<ChapterLink>>, k: int, total: nat)
    requires
        0 <= k <= links.len() <= total,
    ensures
        forall|i: int|
            #![trigger links[i]]
            0 <= i < k && links[i] is Some && leads_to_chapter(links[i]->0.href@) ==> exists|a: int|
                0 <= a < chapters_from(links, k, total).len() && #[trigger] chapters_from(
                    links,
                    k,
                    total,
                )[a] == made_chapter(links[i]->0, (total - i) as nat),
    decreases k,
{
    if k > 0 {
        lemma_chapters_listed(links, k - 1, total);
        let rest = chapters_from(links, k - 1, total);
        let all = chapters_from(links, k, total);
        assert forall|i: int|
            #![trigger links[i]]
            0 <= i < k && links[i] is Some && leads_to_chapter(links[i]->0.href@) implies exists|a: int|
            0 <= a < all.len() && #[trigger] all[a] == made_chapter(links[i]->0, (total - i) as nat) by {
            if i < k - 1 {
                let a = choose|a: int|
                    0 <= a < rest.len() && #[trigger] rest[a] == made_chapter(
                        links[i]->0,
                        (total - i) as nat,
                    );
                assert(all[a] == rest[a]);
            } else {
                assert(all[rest.len() as int] == made_chapter(links[i]->0, (total - i) as nat));
            }
        }
    }
}

/// Over the first `k` links, every listed chapter is made from a chapter link.
proof fn lemma_chapters_sourced(links: Seq<Option<ChapterLink>>, k: int, total: nat)
    requires
        0 <= k <= links.len() <= total,
    ensures
        forall|a: int|
            #![trigger chapters_from(links, k, total)[a]]
            0 <= a < chapters_from(links, k, total).len() ==> exists|i: int|
                0 <= i < k && #[trigger] links[i] is Some && leads_to_chapter(links[i]->0.href@)
                    && chapters_from(links, k, total)[a] == made_chapter(
                    links[i]->0,
                    (total - i) as nat,
                ),
    decreases k,
{
    if k > 0 {
        lemma_chapters_sourced(links, k - 1, total);
        let rest = chapters_from(links, k - 1, total);
        let all = chapters_from(links, k, total);
        assert forall|a: int| #![trigger all[a]] 0 <= a < all.len() implies exists|i: int|
            0 <= i < k && #[trigger] links[i] is Some && leads_to_chapter(links[i]->0.href@) && all[a]
                == made_chapter(links[i]->0, (total - i) as nat) by {
            if a < rest.len() {
                assert(all[a] == rest[a]);
                let i = choose|i: int|
                    0 <= i < k - 1 && #[trigger] links[i] is Some && leads_to_chapter(
                        links[i]->0.href@,
                    ) && rest[a] == made_chapter(links[i]->0, (total - i) as nat);
                assert(links[i] is Some);
            } else {
                assert(links[k - 1] is Some);
            }
        }
    }
}

/// Every link holding `/manga/` and `/detail/` is listed as a chapter: its
/// address is the chapter's id, its trimmed text the title, the number of
/// links less its position the number, and its absolute address the URL.
pub proof fn every_chapter_link_is_listed(links: Seq<Option<ChapterLink>>, i: int)
    requires
        0 <= i < links.len(),
        links[i] is Some,
        has_substring(links[i]->0.href@, "/manga/"@),
        has_substring(links[i]->0.href@, "/detail/"@),
    ensures
        exists|a: int|
            0 <= a < chapter_list_of(links).len() && {
                let c = #[trigger] chapter_list_of(links)[a];
                let l = links[i]->0;
                &&& c.id == l.href@
                &&& c.title == trim(l.text@)
                &&& c.number == links.len() - i
                &&& c.url == absolute_of(l.href@)
            },
{
    lemma_chapters_listed(links, links.len() as int, links.len());
    let l = chapters_from(links, links.len() as int, links.len());
    assert(links[i] is Some);
    let a = choose|a: int|
        0 <= a < l.len() && #[trigger] l[a] == made_chapter(links[i]->0, (links.len() - i) as nat);
    assert(l[a] == chapter_list_of(links)[a]);
}

/// Every listed chapter is made from a link holding `/manga/` and `/detail/`.
pub proof fn every_listed_chapter_has_a_link(links: Seq<Option<ChapterLink>>, a: int)
    requires
        0 <= a < chapter_list_of(links).len(),
    ensures
        exists|i: int|
            0 <= i < links.len() && #[trigger] links[i] is Some && {
                let c = chapter_list_of(links)[a];
                let l = links[i]->0;
                &&& has_substring(l.href@, "/manga/"@)
                &&& has_substring(l.href@, "/detail/"@)
                &&& c.id == l.href@
                &&& c.title == trim(l.text@)
                &&& c.number == links.len() - i
                &&& c.url == absolute_of(l.href@)
            },
{
    lemma_chapters_sourced(links, links.len() as int, links.len());
    let l = chapters_from(links, links.len() as int, links.len());
    assert(l[a] == chapter_list_of(links)[a]);
    let i = choose|i: int|
        0 <= i < links.len() && #[trigger] links[i] is Some && leads_to_chapter(links[i]->0.href@)
            && l[a] == made_chapter(links[i]->0, (links.len() - i) as nat);
    assert(links[i] is Some);
}

/// Whether an image source is kept as a page: it begins with `http` and
/// holds `/webtoon/content/`.
spec fn kept_as_page(src: Seq<char>) -> bool {
    starts_with(src, "http"@) && has_substring(src, "/webtoon/content/"@)
}

/// The page at position `i` with address `url`.
spec fn page_at(i: int, url: Seq<char>) -> PageView {
    PageView { index: i as i32, url }
}

/// Over the first `k` sources, every kept source is a page at its position.
proof fn lemma_pages_listed(srcs: Seq<Option<String>>, k: int)
    requires
        0 <= k <= srcs.len(),
    ensures
        forall|i: int|
            #![trigger srcs[i]]
            0 <= i < k && srcs[i] is Some && kept_as_page(srcs[i]->0@) ==> exists|a: int|
                0 <= a < pages_from(srcs, k).len() && #[trigger] pages_from(srcs, k)[a] == page_at(i, srcs[i]->0@),
    decreases k,
{
    if k > 0 {
        lemma_pages_listed(srcs, k - 1);
        let rest = pages_from(srcs, k - 1);
        let all = pages_from(srcs, k);
        assert forall|i: int|
            #![trigger srcs[i]]
            0 <= i < k && srcs[i] is Some && kept_as_page(srcs[i]->0@) implies exists|a: int|
            0 <= a < all.len() && #[trigger] all[a] == page_at(i, srcs[i]->0@) by {
            if i < k - 1 {
                let a = choose|a: int|
                    0 <= a < rest.len() && #[trigger] rest[a] == page_at(i, srcs[i]->0@);
                assert(all[a] == rest[a]);
            } else {
                assert(all[rest.len() as int] == page_at(i, srcs[i]->0@));
            }
        }
    }
}

/// Over the first `k` sources, every page is a kept source at its position.
proof fn lemma_pages_sourced(srcs: Seq<Option<String>>, k: int)
    requires
        0 <= k <= srcs.len(),
    ensures
        forall|a: int|
            #![trigger pages_from(srcs, k)[a]]
            0 <= a < pages_from(srcs, k).len() ==> exists|i: int|
                0 <= i < k && #[trigger] srcs[i] is Some && kept_as_page(srcs[i]->0@) && pages_from(
                    srcs,
                    k,
                )[a] == page_at(i, srcs[i]->0@),
    decreases k,
{
    if k > 0 {
        lemma_pages_sourced(srcs, k - 1);
        let rest = pages_from(srcs, k - 1);
        let all = pages_from(srcs, k);
        assert forall|a: int| #![trigger all[a]] 0 <= a < all.len() implies exists|i: int|
            0 <= i < k && #[trigger] srcs[i] is Some && kept_as_page(srcs[i]->0@) && all[a]
                == page_at(i, srcs[i]->0@) by {
            if a < rest.len() {
                assert(all[a] == rest[a]);
                let i = choose|i: int|
                    0 <= i < k - 1 && #[trigger] srcs[i] is Some && kept_as_page(srcs[i]->0@)
                        && rest[a] == page_at(i, srcs[i]->0@);
                assert(srcs[i] is Some);
            } else {
                assert(srcs[k - 1] is Some);
            }
        }
    }
}

/// Every image source that begins with `http` and holds
/// `/webtoon/content/` is a page, at its position on the web page.
pub proof fn every_webtoon_image_is_a_page(srcs: Seq<Option<String>>, i: int)
    requires
        0 <= i < srcs.len(),
        srcs[i] is Some,
        starts_with(srcs[i]->0@, "http"@),
        has_substring(srcs[i]->0@, "/webtoon/content/"@),
    ensures
        exists|a: int|
            0 <= a < page_list_of(srcs).len() && #[trigger] page_list_of(srcs)[a].index == i as i32
                && page_list_of(srcs)[a].url == srcs[i]->0@,
{
    lemma_pages_listed(srcs, srcs.len() as int);
    assert(srcs[i] is Some);
    let l = pages_from(srcs, srcs.len() as int);
    let a = choose|a: int| 0 <= a < l.len() && #[trigger] l[a] == page_at(i, srcs[i]->0@);
    assert(l[a] == page_list_of(srcs)[a]);
    assert(page_list_of(srcs)[a].index == i as i32 && page_list_of(srcs)[a].url == srcs[i]->0@);
}

/// Every page is an image source that begins with `http` and holds
/// `/webtoon/content/`, at its position on the web page.
pub proof fn every_page_is_a_webtoon_image(srcs: Seq<Option<String>>, a: int)
    requires
        0 <= a < page_list_of(srcs).len(),
    ensures
        exists|i: int|
            0 <= i < srcs.len() && #[trigger] srcs[i] is Some && starts_with(srcs[i]->0@, "http"@)
                && has_substring(srcs[i]->0@, "/webtoon/content/"@) && page_list_of(srcs)[a].index
                == i as i32 && page_list_of(srcs)[a].url == srcs[i]->0@,
{
    lemma_pages_sourced(srcs, srcs.len() as int);
    let l = pages_from(srcs, srcs.len() as int);
    assert(l[a] == page_list_of(srcs)[a]);
    let i = choose|i: int|
        0 <= i < srcs.len() && #[trigger] srcs[i] is Some && kept_as_page(srcs[i]->0@) && l[a]
            == page_at(i, srcs[i]->0@);
    assert(srcs[i] is Some);
}

/// Whether a card lists a comic: its link holds `/manga/` and gives an
/// id, and it has a title.
#[verifier::opaque]
spec fn card_is_listed(card: MangaCard) -> bool {
    &&& has_substring(card.href@, "/manga/"@)
    &&& manga_id_of(card.href@).len() > 0
    &&& card.title@.len() > 0
}

/// The comic a listing card stands for: its link's id, its title, and its
/// picture's `data-setbg`, or its image's `src` where that is empty.
#[verifier::opaque]
spec fn card_listing(card: MangaCard) -> MangaView {
    listed_manga(
        manga_id_of(card.href@),
        card.title@,
        if card.set_bg@.len() > 0 {
            card.set_bg@
        } else {
            card.image_src@
        },
    )
}

/// Every card that lists a comic is in the listing, and everything in the
/// listing comes from such a card.
/// What one card lists, told by the two rules above.
proof fn lemma_card_manga(card: MangaCard)
    ensures
        card_manga(card) == (if card_is_listed(card) {
            Some(card_listing(card))
        } else {
            None::<MangaView>
        }),
{
    reveal(card_manga);
    reveal(card_is_listed);
    reveal(card_listing);
}

/// Every card that lists a comic is in the listing.
proof fn lemma_cards_listed(cards: Seq<Option<MangaCard>>)
    ensures
        forall|i: int|
            #![trigger cards[i]]
            0 <= i < cards.len() && cards[i] is Some && card_is_listed(cards[i]->0) ==> exists|a: int|
                0 <= a < cards_manga(cards).len() && #[trigger] cards_manga(cards)[a] == card_listing(
                    cards[i]->0,
                ),
    decreases cards.len(),
{
    if cards.len() > 0 {
        let init = cards.drop_last();
        lemma_cards_listed(init);
        if let Some(c) = cards.last() {
            lemma_card_manga(c);
        }
        let rest = cards_manga(init);
        let all = cards_manga(cards);
        assert forall|i: int|
            #![trigger cards[i]]
            0 <= i < cards.len() && cards[i] is Some && card_is_listed(cards[i]->0) implies exists|
            a: int,
        | 0 <= a < all.len() && #[trigger] all[a] == card_listing(cards[i]->0) by {
            if i < cards.len() - 1 {
                assert(init[i] == cards[i]);
                let a = choose|a: int|
                    0 <= a < rest.len() && #[trigger] rest[a] == card_listing(init[i]->0);
                assert(all[a] == rest[a]);
            } else {
                assert(all[rest.len() as int] == card_listing(cards[i]->0));
            }
        }
    }
}

/// Everything in the listing comes from a card that lists a comic.
proof fn lemma_cards_sourced(cards: Seq<Option<MangaCard>>)
    ensures
        forall|a: int|
            #![trigger cards_manga(cards)[a]]
            0 <= a < cards_manga(cards).len() ==> exists|i: int|
                0 <= i < cards.len() && #[trigger] cards[i] is Some && card_is_listed(cards[i]->0)
                    && cards_manga(cards)[a] == card_listing(cards[i]->0),
    decreases cards.len(),
{
    if cards.len() > 0 {
        let init = cards.drop_last();
        lemma_cards_sourced(init);
        if let Some(c) = cards.last() {
            lemma_card_manga(c);
        }
        let rest = cards_manga(init);
        let all = cards_manga(cards);
        assert forall|a: int| #![trigger all[a]] 0 <= a < all.len() implies exists|i: int|
            0 <= i < cards.len() && #[trigger] cards[i] is Some && card_is_listed(cards[i]->0)
                && all[a] == card_listing(cards[i]->0) by {
            if a < rest.len() {
                assert(all[a] == rest[a]);
                let i = choose|i: int|
                    0 <= i < init.len() && #[trigger] init[i] is Some && card_is_listed(init[i]->0)
                        && rest[a] == card_listing(init[i]->0);
                assert(init[i] == cards[i]);
            } else {
                assert(cards[cards.len() - 1] is Some);
            }
        }
    }
}

/// Every card whose link holds `/manga/` and gives a comic id, and which
/// has a title, is in the listing with that id and title, and the card's
/// `data-setbg` as cover, or its image's `src` where that is empty.
pub proof fn every_listing_card_is_listed(cards: Seq<Option<MangaCard>>, i: int)
    requires
        0 <= i < cards.len(),
        cards[i] is Some,
        has_substring(cards[i]->0.href@, "/manga/"@),
        manga_id_of(cards[i]->0.href@).len() > 0,
        cards[i]->0.title@.len() > 0,
    ensures
        exists|a: int|
            0 <= a < cards_manga(cards).len() && {
                let m = #[trigger] cards_manga(cards)[a];
                let c = cards[i]->0;
                &&& m.id == manga_id_of(c.href@)
                &&& m.title == c.title@
                &&& m.cover == (if c.set_bg@.len() > 0 {
                    c.set_bg@
                } else {
                    c.image_src@
                })
            },
{
    reveal(card_is_listed);
    reveal(card_listing);
    lemma_cards_listed(cards);
    assert(cards[i] is Some);
}

/// Everything in a listing comes from a card whose link holds `/manga/` and
/// gives its id, and which has a title: its title, and the card's
/// `data-setbg` as cover, or its image's `src` where that is empty.
pub proof fn every_listed_manga_has_a_card(cards: Seq<Option<MangaCard>>, a: int)
    requires
        0 <= a < cards_manga(cards).len(),
    ensures
        exists|i: int|
            0 <= i < cards.len() && #[trigger] cards[i] is Some && {
                let m = cards_manga(cards)[a];
                let c = cards[i]->0;
                &&& has_substring(c.href@, "/manga/"@)
                &&& c.title@.len() > 0
                &&& m.id == manga_id_of(c.href@)
                &&& m.id.len() > 0
                &&& m.title == c.title@
                &&& m.cover == (if c.set_bg@.len() > 0 {
                    c.set_bg@
                } else {
                    c.image_src@
                })
            },
{
    reveal(card_is_listed);
    reveal(card_listing);
    lemma_cards_sourced(cards);
    let i = choose|i: int|
        0 <= i < cards.len() && #[trigger] cards[i] is Some && card_is_listed(cards[i]->0)
            && cards_manga(cards)[a] == card_listing(cards[i]->0);
    assert(cards[i] is Some);
}

/// Whether every character of `s` is white space.
pub open spec fn all_white_space(s: Seq<char>) -> bool {
    forall|j: int| 0 <= j < s.len() ==> crate::text::is_white_space(#[trigger] s[j])
}

/// Text trims to nothing exactly when all of it is white space.
proof fn lemma_trim_empty_iff_blank(s: Seq<char>)
    ensures
        trim(s).len() == 0 <==> all_white_space(s),
{
    let (a, b) = crate::text::lemma_trim_bounds(s);
    if trim(s).len() == 0 {
        assert forall|j: int| 0 <= j < s.len() implies crate::text::is_white_space(#[trigger] s[j]) by {
            if j >= a {
                assert(j >= b);
            }
        }
    }
    if all_white_space(s) && trim(s).len() > 0 {
        assert(crate::text::is_white_space(s[a]));
    }
}

/// The description of a comic is its first paragraph that holds a
/// character other than white space, even where later ones do too.
pub proof fn description_is_first_paragraph_with_text(
    paragraphs: Seq<Seq<char>>,
    meta: Seq<char>,
    i: int,
)
    requires
        0 <= i < paragraphs.len(),
        !all_white_space(paragraphs[i]),
        forall|k: int| 0 <= k < i ==> all_white_space(#[trigger] paragraphs[k]),
    ensures
        description_of(paragraphs, meta) == paragraphs[i],
    decreases i,
{
    lemma_trim_empty_iff_blank(paragraphs[0]);
    if i > 0 {
        let rest = paragraphs.drop_first();
        assert forall|k: int| 0 <= k < i - 1 implies all_white_space(#[trigger] rest[k]) by {
            assert(rest[k] == paragraphs[k + 1]);
        }
        assert(all_white_space(paragraphs[0]));
        description_is_first_paragraph_with_text(rest, meta, i - 1);
    }
}

/// Where every paragraph is white space only, the description of a comic
/// is the page's meta description.
pub proof fn blank_paragraphs_give_meta_description(paragraphs: Seq<Seq<char>>, meta: Seq<char>)
    requires
        forall|k: int| 0 <= k < paragraphs.len() ==> all_white_space(#[trigger] paragraphs[k]),
    ensures
        description_of(paragraphs, meta) == meta,
    decreases paragraphs.len(),
{
    if paragraphs.len() > 0 {
        lemma_trim_empty_iff_blank(paragraphs[0]);
        assert(all_white_space(paragraphs[0]));
        let rest = paragraphs.drop_first();
        assert forall|k: int| 0 <= k < rest.len() implies all_white_space(#[trigger] rest[k]) by {
            assert(rest[k] == paragraphs[k + 1]);
        }
        blank_paragraphs_give_meta_description(rest, meta);
    }
}

/// Making an address absolute keeps an `http://` or `https://` address as
/// it is, and puts any other text behind `https://kxmanhua.com`.
pub proof fn absolute_keeps_or_prefixes(url: Seq<char>)
    ensures
        starts_with(url, "http://"@) || starts_with(url, "https://"@) ==> absolute_of(url) == url,
        !starts_with(url, "http://"@) && !starts_with(url, "https://"@) ==> absolute_of(url)
            == "https://kxmanhua.com"@ + url,
{
}

/// The id of a comic in a link is the piece right after its first
/// `/manga/`, up to the next `/`, where no `/manga/` follows.
pub proof fn manga_id_follows_manga_segment(prefix: Seq<char>, id: Seq<char>, rest: Seq<char>)
    requires
        !id.contains('/'),
        rest.len() == 0 || rest[0] == '/',
        !has_substring(id + rest, "/manga/"@),
        forall|j: int|
            0 <= j < prefix.len() ==> !occurs_at(prefix + "/manga/"@ + id + rest, "/manga/"@, j),
    ensures
        manga_id_of(prefix + "/manga/"@ + id + rest) == id,
{
    reveal_strlit("/manga/");
    assert(prefix + "/manga/"@ + id + rest =~= prefix + "/manga/"@ + (id + rest));
    crate::text::lemma_split_last_at_first(prefix, "/manga/"@, id + rest);
    crate::text::lemma_before_char_of_piece(id, rest, '/');
}

/// The library is listed at `https://kxmanhua.com/manga/library` with the
/// page number, a search at `https://kxmanhua.com/manga/search` with the
/// encoded query and the page number; a comic's page is
/// `https://kxmanhua.com/manga/` followed by its id.
pub proof fn addresses_of_the_site(query: Seq<char>, encoded_query: Seq<char>, page: int, id: Seq<char>)
    ensures
        query.len() == 0 ==> list_url_of(query, encoded_query, page)
            == "https://kxmanhua.com/manga/library?type=0&complete=1&page="@ + decimal(page)
            + "&orderby=1"@,
        query.len() > 0 ==> list_url_of(query, encoded_query, page)
            == "https://kxmanhua.com/manga/search?keyword="@ + encoded_query + "&page="@ + decimal(
            page,
        ),
        manga_url_of(id) == "https://kxmanhua.com/manga/"@ + id,
{
    reveal_strlit("https://kxmanhua.com");
    reveal_strlit("/manga/library?type=0&complete=1&page=");
    reveal_strlit("https://kxmanhua.com/manga/library?type=0&complete=1&page=");
    reveal_strlit("/manga/search?keyword=");
    reveal_strlit("https://kxmanhua.com/manga/search?keyword=");
    reveal_strlit("/manga/");
    reveal_strlit("https://kxmanhua.com/manga/");
    assert(WWW_URL@ + "/manga/library?type=0&complete=1&page="@
        =~= "https://kxmanhua.com/manga/library?type=0&complete=1&page="@);
    assert(WWW_URL@ + "/manga/search?keyword="@ =~= "https://kxmanhua.com/manga/search?keyword="@);
    assert(WWW_URL@ + "/manga/"@ =~= "https://kxmanhua.com/manga/"@);
}

/// The details of a comic carry its page's title, cover and categories,
/// rate it not safe for work, and read it as a scroll.
pub proof fn details_carry_page_values(id: Seq<char>, page: MangaDetailsPage)
    ensures
        details_of(id, page).id == id,
        details_of(id, page).title == page.title@,
        details_of(id, page).cover == page.cover@,
        details_of(id, page).categories == page.categories@.map_values(|c: String| c@),
        details_of(id, page).artist.len() == 0,
        page.author_text is None ==> details_of(id, page).author.len() == 0,
        details_of(id, page).nsfw == MangaContentRating::Nsfw,
        details_of(id, page).viewer == MangaViewer::Scroll,
{
}

/// The description on a comic's details is its first paragraph that holds
/// a character other than white space.
pub proof fn details_description_is_first_paragraph_with_text(
    id: Seq<char>,
    page: MangaDetailsPage,
    i: int,
)
    requires
        0 <= i < page.paragraphs@.len(),
        !all_white_space(page.paragraphs@[i]@),
        forall|k: int| 0 <= k < i ==> all_white_space(#[trigger] page.paragraphs@[k]@),
    ensures
        details_of(id, page).description == page.paragraphs@[i]@,
{
    let ps = strings_view(page.paragraphs@);
    assert forall|k: int| 0 <= k < i implies all_white_space(#[trigger] ps[k]) by {
        assert(ps[k] == page.paragraphs@[k]@);
    }
    assert(ps[i] == page.paragraphs@[i]@);
    description_is_first_paragraph_with_text(ps, page.meta_description@, i);
}

/// Where every paragraph is white space only, the description on a comic's
/// details is the page's meta description.
pub proof fn details_description_falls_back_to_meta(id: Seq<char>, page: MangaDetailsPage)
    requires
        forall|k: int| 0 <= k < page.paragraphs@.len() ==> all_white_space(
            #[trigger] page.paragraphs@[k]@,
        ),
    ensures
        details_of(id, page).description == page.meta_description@,
{
    let ps = strings_view(page.paragraphs@);
    assert forall|k: int| 0 <= k < ps.len() implies all_white_space(#[trigger] ps[k]) by {
        assert(ps[k] == page.paragraphs@[k]@);
    }
    blank_paragraphs_give_meta_description(ps, page.meta_description@);
}

/// The author on a comic's details is the text of its author element with
/// each "作者：" and "作者:" taken out and then trimmed: one unbroken piece
/// of the unlabelled text, everything around which is white space; empty
/// where there is no author element.
pub proof fn details_author_is_label_free_text_trimmed(
    id: Seq<char>,
    page: MangaDetailsPage,
) -> (bounds: (int, int))
    ensures
        page.author_text is None ==> details_of(id, page).author.len() == 0,
        page.author_text matches Some(t) ==> {
            let unlabelled = replace_all(
                replace_all(t@, "\u{4f5c}\u{8005}\u{ff1a}"@, Seq::empty()),
                "\u{4f5c}\u{8005}:"@,
                Seq::empty(),
            );
            &&& 0 <= bounds.0 <= bounds.1 <= unlabelled.len()
            &&& details_of(id, page).author == unlabelled.subrange(bounds.0, bounds.1)
            &&& forall|j: int| 0 <= j < bounds.0 ==> crate::text::is_white_space(#[trigger] unlabelled[j])
            &&& forall|j: int| bounds.1 <= j < unlabelled.len() ==> crate::text::is_white_space(
                #[trigger] unlabelled[j],
            )
            &&& bounds.0 < bounds.1 ==> !crate::text::is_white_space(unlabelled[bounds.0])
                && !crate::text::is_white_space(unlabelled[bounds.1 - 1])
        },
{
    match page.author_text {
        Some(t) => author_is_label_free_text_trimmed(t@),
        None => (0, 0),
    }
}

/// The status on a comic's details follows the words of its status label:
/// "连载" or "ongoing" (in any case of ASCII letters) make it ongoing;
/// otherwise "完结" or "completed" make it completed; else it is unknown.
pub proof fn details_status_follows_label_words(id: Seq<char>, page: MangaDetailsPage)
    ensures
        ({
            let text = page.status_text@;
            let s = details_of(id, page).status;
            let ongoing = has_substring(text, "\u{8fde}\u{8f7d}"@) || has_substring(
                ascii_lower(text),
                "ongoing"@,
            );
            let completed = has_substring(text, "\u{5b8c}\u{7ed3}"@) || has_substring(
                ascii_lower(text),
                "completed"@,
            );
            &&& ongoing ==> s == MangaStatus::Ongoing
            &&& !ongoing && completed ==> s == MangaStatus::Completed
            &&& !ongoing && !completed ==> s == MangaStatus::Unknown
        }),
{
    status_follows_label_words(page.status_text@);
}

/// The address of a chapter: kept where it begins with `http`, otherwise
/// made absolute.
pub proof fn chapter_address_rule(chapter_id: Seq<char>)
    ensures
        starts_with(chapter_id, "http"@) ==> page_list_url_of(chapter_id) == chapter_id,
        !starts_with(chapter_id, "http"@) ==> page_list_url_of(chapter_id) == absolute_of(
            chapter_id,
        ),
{
}

} // verus!
