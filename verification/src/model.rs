//! What a catalogue hands back to the reader app: comics, chapters and
//! pages, as plain values, each with a mathematical view.
use vstd::prelude::*;

verus! {

/// Publication status of a comic.
#[derive(Clone, Copy, Debug, PartialEq, Eq, Structural)]
pub enum MangaStatus {
    Unknown,
    Ongoing,
    Completed,
}

/// Content rating of a comic.
#[derive(Clone, Copy, Debug, PartialEq, Eq, Structural)]
pub enum MangaContentRating {
    Safe,
    Suggestive,
    Nsfw,
}

/// How the reader lays out the pages of a comic.
#[derive(Clone, Copy, Debug, PartialEq, Eq, Structural)]
pub enum MangaViewer {
    Default,
    Rtl,
    Ltr,
    Vertical,
    Scroll,
}

/// A comic as the catalogue describes it.
#[derive(Debug)]
pub struct Manga {
    pub id: String,
    pub title: String,
    pub cover: String,
    pub author: String,
    pub artist: String,
    pub description: String,
    pub url: String,
    pub categories: Vec<String>,
    pub status: MangaStatus,
    pub nsfw: MangaContentRating,
    pub viewer: MangaViewer,
}

/// The mathematical view of a [`Manga`].
pub struct MangaView {
    pub id: Seq<char>,
    pub title: Seq<char>,
    pub cover: Seq<char>,
    pub author: Seq<char>,
    pub artist: Seq<char>,
    pub description: Seq<char>,
    pub url: Seq<char>,
    pub categories: Seq<Seq<char>>,
    pub status: MangaStatus,
    pub nsfw: MangaContentRating,
    pub viewer: MangaViewer,
}

impl View for Manga {
    type V = MangaView;

    open spec fn view(&self) -> MangaView {
        MangaView {
            id: self.id@,
            title: self.title@,
            cover: self.cover@,
            author: self.author@,
            artist: self.artist@,
            description: self.description@,
            url: self.url@,
            categories: strings_view(self.categories@),
            status: self.status,
            nsfw: self.nsfw,
            viewer: self.viewer,
        }
    }
}

/// The characters of each string of `v`.
pub open spec fn strings_view(v: Seq<String>) -> Seq<Seq<char>> {
    v.map_values(|s: String| s@)
}

/// A comic of a listing: an id, a title and a cover, all else left at its default.
pub open spec fn listed_manga(id: Seq<char>, title: Seq<char>, cover: Seq<char>) -> MangaView {
    MangaView {
        id,
        title,
        cover,
        author: Seq::empty(),
        artist: Seq::empty(),
        description: Seq::empty(),
        url: Seq::empty(),
        categories: Seq::empty(),
        status: MangaStatus::Unknown,
        nsfw: MangaContentRating::Safe,
        viewer: MangaViewer::Default,
    }
}

/// The views of a list of comics.
pub open spec fn mangas_view(v: Seq<Manga>) -> Seq<MangaView> {
    v.map_values(|m: Manga| m@)
}

/// One page of a listing of comics.
#[derive(Debug)]
pub struct MangaPageResult {
    pub manga: Vec<Manga>,
    pub has_more: bool,
}

/// A chapter of a comic. `number` is its position counted from the end of
/// the chapter list, which the reader shows as the chapter number.
#[derive(Debug)]
pub struct Chapter {
    pub id: String,
    pub title: String,
    pub number: usize,
    pub url: String,
}

/// The mathematical view of a [`Chapter`].
pub struct ChapterView {
    pub id: Seq<char>,
    pub title: Seq<char>,
    pub number: nat,
    pub url: Seq<char>,
}

impl View for Chapter {
    type V = ChapterView;

    open spec fn view(&self) -> ChapterView {
        ChapterView { id: self.id@, title: self.title@, number: self.number as nat, url: self.url@ }
    }
}

/// The views of a list of chapters.
pub open spec fn chapters_view(v: Seq<Chapter>) -> Seq<ChapterView> {
    v.map_values(|c: Chapter| c@)
}

/// An image page of a chapter; `index` is the image's position on the chapter's web page.
#[derive(Debug)]
pub struct Page {
    pub index: i32,
    pub url: String,
}

/// The mathematical view of a [`Page`].
pub struct PageView {
    pub index: i32,
    pub url: Seq<char>,
}

impl View for Page {
    type V = PageView;

    open spec fn view(&self) -> PageView {
        PageView { index: self.index, url: self.url@ }
    }
}

/// The views of a list of pages.
pub open spec fn pages_view(v: Seq<Page>) -> Seq<PageView> {
    v.map_values(|p: Page| p@)
}

/// The kinds of search filter that the catalogues tell apart.
#[derive(Clone, Copy, Debug, PartialEq, Eq, Structural)]
pub enum FilterKind {
    /// A search by title.
    Title,
    /// Any other filter, which the catalogues ignore.
    Other,
}

/// A search filter: its kind and its value as text, `None` where the value is not text.
#[derive(Debug)]
pub struct Filter {
    pub kind: FilterKind,
    pub value: Option<String>,
}

/// Why a request to a catalogue cannot be answered.
#[derive(Clone, Copy, Debug, PartialEq, Eq, Structural)]
pub enum SourceError {
    /// A title filter whose value is not text.
    FilterValueNotText,
}

/// The search text that `filters` ask for: the value of the last title
/// filter, or empty text; an error at the first title filter whose value
/// is not text.
pub open spec fn query_of(filters: Seq<Filter>) -> Result<Seq<char>, SourceError>
    decreases filters.len(),
{
    if filters.len() == 0 {
        Ok(Seq::empty())
    } else {
        match query_of(filters.drop_last()) {
            Err(e) => Err(e),
            Ok(q) => {
                let f = filters.last();
                if f.kind == FilterKind::Title {
                    match f.value {
                        Some(v) => Ok(v@),
                        None => Err(SourceError::FilterValueNotText),
                    }
                } else {
                    Ok(q)
                }
            },
        }
    }
}

/// Once a prefix of the filters gives an error, all of them give that error.
pub proof fn lemma_query_error_persists(filters: Seq<Filter>, k: int)
    requires
        0 <= k <= filters.len(),
        query_of(filters.take(k)) is Err,
    ensures
        query_of(filters) == query_of(filters.take(k)),
    decreases filters.len() - k,
{
    if k == filters.len() {
        assert(filters.take(k) =~= filters);
    } else {
        assert(filters.take(k + 1).drop_last() =~= filters.take(k));
        lemma_query_error_persists(filters, k + 1);
    }
}

/// The search text of a listing request: the value of the last title
/// filter; empty text where there is none.
pub fn search_query(filters: &Vec<Filter>) -> (r: Result<String, SourceError>)
    ensures
        match query_of(filters@) {
            Ok(q) => r matches Ok(s) && s@ == q,
            Err(e) => r == Err::<String, SourceError>(e),
        },
{
    let mut query = String::new();
    let mut i: usize = 0;
    while i < filters.len()
        invariant
            i <= filters@.len(),
            query_of(filters@.take(i as int)) == Ok::<Seq<char>, SourceError>(query@),
        decreases filters@.len() - i,
    {
        let f = &filters[i];
        assert(filters@.take(i + 1).drop_last() =~= filters@.take(i as int));
        assert(filters@.take(i + 1).last() == filters@[i as int]);
        if f.kind == FilterKind::Title {
            match &f.value {
                Some(v) => {
                    query = v.clone();
                },
                None => {
                    proof {
                        lemma_query_error_persists(filters@, i + 1);
                    }
                    return Err(SourceError::FilterValueNotText);
                },
            }
        }
        i = i + 1;
    }
    assert(filters@.take(filters@.len() as int) =~= filters@);
    Ok(query)
}

/// The search text of a set of filters: where some title filter has no
/// text value, an error; otherwise the value of the last title filter, or
/// empty text where there is no title filter.
pub proof fn query_is_last_title_value(filters: Seq<Filter>)
    ensures
        (exists|i: int|
            0 <= i < filters.len() && #[trigger] filters[i].kind == FilterKind::Title
                && filters[i].value is None) ==> query_of(filters) == Err::<Seq<char>, SourceError>(
            SourceError::FilterValueNotText,
        ),
        (forall|i: int|
            0 <= i < filters.len() && #[trigger] filters[i].kind == FilterKind::Title
                ==> filters[i].value is Some) ==> {
            &&& query_of(filters) is Ok
            &&& (forall|i: int| 0 <= i < filters.len() ==> #[trigger] filters[i].kind != FilterKind::Title)
                ==> query_of(filters) == Ok::<Seq<char>, SourceError>(Seq::empty())
            &&& forall|i: int|
                0 <= i < filters.len() && #[trigger] filters[i].kind == FilterKind::Title && (forall|
                    j: int,
                | i < j < filters.len() ==> #[trigger] filters[j].kind != FilterKind::Title)
                    ==> query_of(filters) == Ok::<Seq<char>, SourceError>(filters[i].value->0@)
        },
    decreases filters.len(),
{
    if filters.len() > 0 {
        let init = filters.drop_last();
        query_is_last_title_value(init);
        let n = filters.len() - 1;
        assert forall|i: int| 0 <= i < init.len() implies #[trigger] init[i] == filters[i] by {}
        if exists|i: int|
            0 <= i < filters.len() && #[trigger] filters[i].kind == FilterKind::Title
                && filters[i].value is None {
            let i = choose|i: int|
                0 <= i < filters.len() && #[trigger] filters[i].kind == FilterKind::Title
                    && filters[i].value is None;
            if i < n {
                assert(init[i].kind == FilterKind::Title && init[i].value is None);
            }
        }
        if forall|i: int|
            0 <= i < filters.len() && #[trigger] filters[i].kind == FilterKind::Title
                ==> filters[i].value is Some {
            assert forall|i: int| 0 <= i < init.len() && #[trigger] init[i].kind == FilterKind::Title
                implies init[i].value is Some by {
                assert(filters[i].kind == FilterKind::Title);
            }
            if forall|i: int| 0 <= i < filters.len() ==> #[trigger] filters[i].kind != FilterKind::Title {
                assert forall|i: int| 0 <= i < init.len() implies #[trigger] init[i].kind
                    != FilterKind::Title by {
                    assert(filters[i].kind != FilterKind::Title);
                }
                assert(filters[n].kind != FilterKind::Title);
            }
            assert forall|i: int|
                0 <= i < filters.len() && #[trigger] filters[i].kind == FilterKind::Title && (forall|
                    j: int,
                | i < j < filters.len() ==> #[trigger] filters[j].kind != FilterKind::Title)
                implies query_of(filters) == Ok::<Seq<char>, SourceError>(filters[i].value->0@) by {
                if i < n {
                    assert(filters[n].kind != FilterKind::Title);
                    assert(init[i].kind == FilterKind::Title);
                    assert forall|j: int| i < j < init.len() implies #[trigger] init[j].kind
                        != FilterKind::Title by {
                        assert(filters[j].kind != FilterKind::Title);
                    }
                }
            }
        }
    }
}

} // verus!
