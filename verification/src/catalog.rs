//! A lending catalog of mixed media: books, audio books, sculptures and
//! paintings, each under a unique id, with case-insensitive search over
//! titles, authors and keywords.
//!
//! Entries are kept in insertion order. Case folding and substring search go
//! through the trusted bridges in [`crate::text`].

use crate::text::contains_sub;
use crate::text::lower_of;
use crate::text::lowercase;
use crate::text::str_contains;
use crate::text::str_eq;
use crate::text::strip_blanks;
use crate::text::without_blanks;
use vstd::prelude::*;

verus! {

#[derive(Debug, Clone, PartialEq, Eq)]
pub enum MediaType {
    Book { isbn10: Option<u64>, isbn13: Option<u64> },
    AudioBook { duration: u32, isbn10: Option<u64>, isbn13: Option<u64> },
    Sculpture { height: u32, width: u32, depth: u32, weight: u32, material: Option<String> },
    Painting { height: u32, width: u32, material: Option<String> },
}

#[derive(Debug, Clone, PartialEq, Eq)]
pub struct Media {
    pub id: u64,
    pub title: String,
    pub author: String,
    pub year: Option<u16>,
    pub available: bool,
    pub media_type: MediaType,
    pub keywords: Vec<String>,
}

/// The lending catalog. Ids are unique; order is insertion order.
#[derive(Debug)]
pub struct Library {
    pub name: String,
    pub catalogue: Vec<Media>,
}

#[derive(Debug)]
pub enum ErrorKind {
    MediaNotFound(u64),
    IsbnNotFound(u64),
    MediaNotAvailable(u64),
    MediaAlreadyAvailable(u64),
    IdAlreadyExists(u64),
    BookIsbnAlreadyExists,
    MediaAlreadyExists(String),
    MediaDoesntHaveIsbn(String),
    MediaDoesntHaveDuration(String),
    MediaDoesntHaveDimensions(String),
    TitleNotFound(Vec<String>),
    AuthorNotFound(Vec<String>),
    KeywordNotFound(Vec<String>),
    TitleByAuthorNotFound(String, String),
}

/// Whether `m` is one of the catalog's entries.
pub open spec fn in_catalogue(c: Seq<Media>, m: Media) -> bool {
    exists|k: int| 0 <= k < c.len() && c[k] == m
}

/// Whether `m` stands among the returned references.
pub open spec fn among(v: Seq<&Media>, m: Media) -> bool {
    exists|j: int| 0 <= j < v.len() && *v[j] == m
}

/// Whether a kind name matches a query once blanks are dropped and case is
/// folded, as the kind listing compares them.
pub open spec fn kind_matches(m: Media, query: Seq<char>) -> bool {
    lower_of(without_blanks(m.media_type.name())) == lower_of(without_blanks(query))
}

/// Whether `m` carries, among its stored keywords, the case-folded form of
/// every search term.
pub open spec fn carries_all(m: Media, terms: Seq<String>) -> bool {
    forall|t: int| 0 <= t < terms.len() ==> keyword_held(m.keywords@, lower_of((#[trigger] terms[t])@))
}

/// Whether some entry carries `isbn` in its first filled slot.
pub open spec fn some_isbn_held(c: Seq<Media>, isbn: u64) -> bool {
    exists|k: int| 0 <= k < c.len() && (#[trigger] c[k]).media_type.spec_check_isbn(isbn)
}

/// Whether some stored keyword equals `word`.
pub open spec fn keyword_held(stored: Seq<String>, word: Seq<char>) -> bool {
    exists|u: int| 0 <= u < stored.len() && (#[trigger] stored[u])@ == word
}

/// Whether a number has exactly thirteen decimal digits: at least ten to
/// the twelfth and below ten to the thirteenth.
pub open spec fn spec_is_isbn13(isbn: u64) -> bool {
    1_000_000_000_000u64 <= isbn < 10_000_000_000_000u64
}

/// Thirteen-digit ISBNs are told from ten-digit ones by their digit count.
pub fn is_isbn13(isbn: u64) -> (r: bool)
    ensures
        r == spec_is_isbn13(isbn),
{
    1_000_000_000_000u64 <= isbn && isbn < 10_000_000_000_000u64
}

impl MediaType {
    /// The ISBN pair carried, for the kinds that carry one.
    pub open spec fn isbns(self) -> Option<(Option<u64>, Option<u64>)> {
        match self {
            MediaType::Book { isbn10, isbn13 } => Some((isbn10, isbn13)),
            MediaType::AudioBook { isbn10, isbn13, .. } => Some((isbn10, isbn13)),
            _ => None,
        }
    }

    /// The kind's display name.
    pub open spec fn name(self) -> Seq<char> {
        match self {
            MediaType::Book { .. } => "Book"@,
            MediaType::AudioBook { .. } => "Audio Book"@,
            MediaType::Sculpture { .. } => "Sculpture"@,
            MediaType::Painting { .. } => "Painting"@,
        }
    }

    pub fn as_str(&self) -> (r: &'static str)
        ensures
            r@ == self.name(),
    {
        match self {
            MediaType::Book { .. } => "Book",
            MediaType::AudioBook { .. } => "Audio Book",
            MediaType::Sculpture { .. } => "Sculpture",
            MediaType::Painting { .. } => "Painting",
        }
    }

    pub fn type_to_string(&self) -> (r: String)
        ensures
            r@ == self.name(),
    {
        self.as_str().to_owned()
    }

    /// Sorts one or two raw ISBNs into their ten- and thirteen-digit slots.
    pub fn new_book(isbn1: Option<u64>, isbn2: Option<u64>) -> (r: MediaType)
        ensures
            r matches MediaType::Book { isbn10, isbn13 } && sorted_isbns(isbn1, isbn2) == (
            isbn10,
            isbn13,
            ),
    {
        let (isbn10, isbn13) = sort_isbns(isbn1, isbn2);
        MediaType::Book { isbn10, isbn13 }
    }

    pub fn new_audio_book(duration: u32, isbn1: Option<u64>, isbn2: Option<u64>) -> (r: MediaType)
        ensures
            r matches MediaType::AudioBook { duration: d, isbn10, isbn13 } && d == duration
                && sorted_isbns(isbn1, isbn2) == (isbn10, isbn13),
    {
        let (isbn10, isbn13) = sort_isbns(isbn1, isbn2);
        MediaType::AudioBook { duration, isbn10, isbn13 }
    }

    pub fn new_sculpture(height: u32, width: u32, depth: u32, weight: u32, material: Option<
        String,
    >) -> (r: MediaType)
        ensures
            r == (MediaType::Sculpture { height, width, depth, weight, material }),
    {
        MediaType::Sculpture { height, width, depth, weight, material }
    }

    pub fn new_painting(height: u32, width: u32, material: Option<String>) -> (r: MediaType)
        ensures
            r == (MediaType::Painting { height, width, material }),
    {
        MediaType::Painting { height, width, material }
    }

    /// Sets the ten-digit ISBN, leaving every other field as it was;
    /// refused for kinds without ISBNs.
    pub fn change_isbn10(&mut self, isbn: u64) -> (r: Result<(), ErrorKind>)
        ensures
            *old(self) matches MediaType::Book { isbn13: i13, .. } ==> r is Ok && *final(self)
                == (MediaType::Book { isbn10: Some(isbn), isbn13: i13 }),
            *old(self) matches MediaType::AudioBook { duration: d, isbn13: i13, .. } ==> r is Ok
                && *final(self) == (MediaType::AudioBook {
                duration: d,
                isbn10: Some(isbn),
                isbn13: i13,
            }),
            old(self).isbns() is None ==> (r matches Err(ErrorKind::MediaDoesntHaveIsbn(_)))
                && *final(self) == *old(self),
    {
        match self {
            MediaType::Book { isbn10, .. } => {
                *isbn10 = Some(isbn);
                Ok(())
            },
            MediaType::AudioBook { isbn10, .. } => {
                *isbn10 = Some(isbn);
                Ok(())
            },
            _ => Err(ErrorKind::MediaDoesntHaveIsbn(self.type_to_string())),
        }
    }

    /// Sets the thirteen-digit ISBN, leaving every other field as it was;
    /// refused for kinds without ISBNs.
    pub fn change_isbn13(&mut self, isbn: u64) -> (r: Result<(), ErrorKind>)
        ensures
            *old(self) matches MediaType::Book { isbn10: i10, .. } ==> r is Ok && *final(self)
                == (MediaType::Book { isbn10: i10, isbn13: Some(isbn) }),
            *old(self) matches MediaType::AudioBook { duration: d, isbn10: i10, .. } ==> r is Ok
                && *final(self) == (MediaType::AudioBook {
                duration: d,
                isbn10: i10,
                isbn13: Some(isbn),
            }),
            old(self).isbns() is None ==> (r matches Err(ErrorKind::MediaDoesntHaveIsbn(_)))
                && *final(self) == *old(self),
    {
        match self {
            MediaType::Book { isbn13, .. } => {
                *isbn13 = Some(isbn);
                Ok(())
            },
            MediaType::AudioBook { isbn13, .. } => {
                *isbn13 = Some(isbn);
                Ok(())
            },
            _ => Err(ErrorKind::MediaDoesntHaveIsbn(self.type_to_string())),
        }
    }

    /// Whether this kind carries `isbn` in its first filled slot.
    pub open spec fn spec_check_isbn(self, isbn: u64) -> bool {
        match self.isbns() {
            Some((isbn10, isbn13)) => match isbn10 {
                Some(i10) => isbn == i10,
                None => match isbn13 {
                    Some(i13) => isbn == i13,
                    None => false,
                },
            },
            None => false,
        }
    }

    pub fn check_isbn(&self, isbn: u64) -> (r: bool)
        ensures
            r == self.spec_check_isbn(isbn),
    {
        match self {
            MediaType::Book { isbn10, isbn13 } => {
                if let Some(i10) = isbn10 {
                    isbn == *i10
                } else if let Some(i13) = isbn13 {
                    isbn == *i13
                } else {
                    false
                }
            },
            MediaType::AudioBook { isbn10, isbn13, .. } => {
                if let Some(i10) = isbn10 {
                    isbn == *i10
                } else if let Some(i13) = isbn13 {
                    isbn == *i13
                } else {
                    false
                }
            },
            _ => false,
        }
    }
}

/// Where one or two raw ISBNs land: a thirteen-digit value fills the second
/// slot, anything else the first; with two values the thirteen-digit one
/// decides.
pub open spec fn sorted_isbns(isbn1: Option<u64>, isbn2: Option<u64>) -> (Option<u64>, Option<
    u64,
>) {
    match (isbn1, isbn2) {
        (Some(a), None) => if spec_is_isbn13(a) {
            (None, Some(a))
        } else {
            (Some(a), None)
        },
        (None, Some(b)) => if spec_is_isbn13(b) {
            (None, Some(b))
        } else {
            (Some(b), None)
        },
        (Some(a), Some(b)) => if spec_is_isbn13(a) {
            (Some(b), Some(a))
        } else {
            (Some(a), Some(b))
        },
        (None, None) => (None, None),
    }
}

fn sort_isbns(isbn1: Option<u64>, isbn2: Option<u64>) -> (r: (Option<u64>, Option<u64>))
    ensures
        r == sorted_isbns(isbn1, isbn2),
{
    match (isbn1, isbn2) {
        (Some(a), None) => if is_isbn13(a) {
            (None, Some(a))
        } else {
            (Some(a), None)
        },
        (None, Some(b)) => if is_isbn13(b) {
            (None, Some(b))
        } else {
            (Some(b), None)
        },
        (Some(a), Some(b)) => if is_isbn13(a) {
            (Some(b), Some(a))
        } else {
            (Some(a), Some(b))
        },
        (None, None) => (None, None),
    }
}

impl Media {
    /// A fresh, available entry; keywords are stored case-folded.
    pub fn new(
        id: u64,
        title: String,
        author: String,
        year: Option<u16>,
        media_type: MediaType,
        keywords: Vec<String>,
    ) -> (m: Media)
        ensures
            m.id == id,
            m.title == title,
            m.author == author,
            m.year == year,
            m.available,
            m.media_type == media_type,
            m.keywords@.len() == keywords@.len(),
            forall|k: int|
                0 <= k < keywords@.len() ==> (#[trigger] m.keywords@[k])@ == lower_of(
                    keywords@[k]@,
                ),
    {
        let folded = lowercase_all(&keywords);
        Media { id, title, author, available: true, year, keywords: folded, media_type }
    }

    /// The sculpture or painting measurements: height, width, and for a
    /// sculpture also depth and weight.
    pub fn dimensions(&self) -> (r: Result<(u32, u32, Option<(u32, u32)>), ErrorKind>)
        ensures
            self.media_type matches MediaType::Sculpture { height, width, depth, weight, .. }
                ==> r matches Ok(d) && d == (height, width, Some((depth, weight))),
            self.media_type matches MediaType::Painting { height, width, .. } ==> r matches Ok(d)
                && d == (height, width, Option::<(u32, u32)>::None),
            self.media_type.isbns() is Some ==> (r matches Err(
                ErrorKind::MediaDoesntHaveDimensions(_),
            )),
    {
        match &self.media_type {
            MediaType::Sculpture { height, width, depth, weight, .. } => Ok(
                (*height, *width, Some((*depth, *weight))),
            ),
            MediaType::Painting { height, width, .. } => Ok((*height, *width, None)),
            _ => Err(ErrorKind::MediaDoesntHaveDimensions(self.type_to_string())),
        }
    }

    /// The play length in seconds; only audio books have one.
    pub fn duration(&self) -> (r: Result<u32, ErrorKind>)
        ensures
            self.media_type matches MediaType::AudioBook { duration, .. } ==> (r matches Ok(d)
                && d == duration),
            !(self.media_type matches MediaType::AudioBook { .. }) ==> (r matches Err(
                ErrorKind::MediaDoesntHaveDuration(_),
            )),
    {
        match &self.media_type {
            MediaType::AudioBook { duration, .. } => Ok(*duration),
            _ => Err(ErrorKind::MediaDoesntHaveDuration(self.type_to_string())),
        }
    }

    pub fn type_as_str(&self) -> (r: &'static str)
        ensures
            r@ == self.media_type.name(),
    {
        self.media_type.as_str()
    }

    pub fn type_to_string(&self) -> (r: String)
        ensures
            r@ == self.media_type.name(),
    {
        self.media_type.type_to_string()
    }

    /// The ISBN pair; only books and audio books carry one.
    pub fn isbn(&self) -> (r: Result<(Option<u64>, Option<u64>), ErrorKind>)
        ensures
            self.media_type.isbns() matches Some(p) ==> r matches Ok(q) && q == p,
            self.media_type.isbns() is None ==> (r matches Err(ErrorKind::MediaDoesntHaveIsbn(_))),
    {
        match &self.media_type {
            MediaType::Book { isbn10, isbn13 } => Ok((*isbn10, *isbn13)),
            MediaType::AudioBook { isbn10, isbn13, .. } => Ok((*isbn10, *isbn13)),
            _ => Err(ErrorKind::MediaDoesntHaveIsbn(self.type_to_string())),
        }
    }

    /// The material of a sculpture or painting, when one is recorded.
    pub fn material(&self) -> (r: Result<String, ErrorKind>)
        ensures
            self.media_type matches MediaType::Sculpture { material: Some(m), .. } ==> r matches Ok(
                s,
            ) && s@ == m@,
            self.media_type matches MediaType::Painting { material: Some(m), .. } ==> r matches Ok(
                s,
            ) && s@ == m@,
            !(self.media_type matches MediaType::Sculpture { material: Some(_), .. })
                && !(self.media_type matches MediaType::Painting { material: Some(_), .. }) ==> (
            r matches Err(ErrorKind::MediaDoesntHaveDimensions(_))),
    {
        match &self.media_type {
            MediaType::Sculpture { material: Some(m), .. } => Ok(m.clone()),
            MediaType::Painting { material: Some(m), .. } => Ok(m.clone()),
            _ => Err(ErrorKind::MediaDoesntHaveDimensions(self.type_to_string())),
        }
    }
}

/// Each string of the list case-folded, in order.
#[verifier::loop_isolation(false)]
pub fn lowercase_all(words: &Vec<String>) -> (r: Vec<String>)
    ensures
        r@.len() == words@.len(),
        forall|k: int| 0 <= k < r@.len() ==> (#[trigger] r@[k])@ == lower_of(words@[k]@),
{
    let n = words.len();
    let mut out: Vec<String> = Vec::new();
    let mut i: usize = 0;
    while i < n
        invariant
            0 <= i <= n,
            out@.len() == i,
            forall|k: int| 0 <= k < i ==> (#[trigger] out@[k])@ == lower_of(words@[k]@),
        decreases n - i,
    {
        out.push(lowercase(words[i].as_str()));
        i = i + 1;
    }
    out
}

impl Library {
    /// Ids are unique.
    pub open spec fn wf(self) -> bool {
        forall|i: int, j: int|
            0 <= i < j < self.catalogue@.len() ==> self.catalogue@[i].id != self.catalogue@[j].id
    }

    pub open spec fn has_id(self, id: u64) -> bool {
        exists|i: int| 0 <= i < self.catalogue@.len() && self.catalogue@[i].id == id
    }

    /// The first position holding `id`; the length when none does.
    pub open spec fn id_index(self, id: u64) -> int {
        first_media_with_id(self.catalogue@, id)
    }

    /// Whether the catalog already holds an entry that counts as the same
    /// media: same ISBN for books and audio books, same title and author for
    /// the rest.
    pub open spec fn spec_contains(self, media: Media) -> bool {
        match media.media_type.isbns() {
            Some((isbn10, isbn13)) => match isbn10 {
                Some(i) => exists|k: int|
                    0 <= k < self.catalogue@.len() && (#[trigger] self.catalogue@[k]).media_type.name()
                        == media.media_type.name() && self.catalogue@[k].media_type.spec_check_isbn(
                        i,
                    ),
                None => match isbn13 {
                    Some(i) => exists|k: int|
                        0 <= k < self.catalogue@.len() && (
                        #[trigger] self.catalogue@[k]).media_type.name()
                            == media.media_type.name()
                            && self.catalogue@[k].media_type.spec_check_isbn(i),
                    None => false,
                },
            },
            None => exists|k: int|
                0 <= k < self.catalogue@.len() && (#[trigger] self.catalogue@[k]).title@
                    == media.title@ && self.catalogue@[k].author@ == media.author@,
        }
    }

    pub fn new(name: &str, file_path: &str) -> (r: Library)
        ensures
            r.catalogue@.len() == 0,
            r.name@ == name@,
            r.wf(),
    {
        let _ = file_path;
        Library { name: name.to_owned(), catalogue: Vec::new() }
    }

    /// Whether an entry counting as the same media is already held.
    #[verifier::loop_isolation(false)]
    pub fn contains(&self, media: &Media) -> (r: bool)
        ensures
            r == self.spec_contains(*media),
    {
        let isbns = match &media.media_type {
            MediaType::Book { isbn10, isbn13 } => Some((*isbn10, *isbn13)),
            MediaType::AudioBook { isbn10, isbn13, .. } => Some((*isbn10, *isbn13)),
            _ => None,
        };
        match isbns {
            Some((isbn10, isbn13)) => {
                let isbn = match isbn10 {
                    Some(i) => i,
                    None => match isbn13 {
                        Some(i) => i,
                        None => { return false },
                    },
                };
                let n = self.catalogue.len();
                let mut k: usize = 0;
                while k < n
                    invariant
                        0 <= k <= n,
                        forall|j: int|
                            0 <= j < k ==> !((#[trigger] self.catalogue@[j]).media_type.name()
                                == media.media_type.name()
                                && self.catalogue@[j].media_type.spec_check_isbn(isbn)),
                    decreases n - k,
                {
                    if str_eq(self.catalogue[k].media_type.as_str(), media.media_type.as_str())
                        && self.catalogue[k].media_type.check_isbn(isbn) {
                        return true;
                    }
                    k = k + 1;
                }
                false
            },
            None => {
                let n = self.catalogue.len();
                let mut k: usize = 0;
                while k < n
                    invariant
                        0 <= k <= n,
                        forall|j: int|
                            0 <= j < k ==> !((#[trigger] self.catalogue@[j]).title@ == media.title@
                                && self.catalogue@[j].author@ == media.author@),
                    decreases n - k,
                {
                    if str_eq(self.catalogue[k].title.as_str(), media.title.as_str()) && str_eq(
                        self.catalogue[k].author.as_str(),
                        media.author.as_str(),
                    ) {
                        return true;
                    }
                    k = k + 1;
                }
                false
            },
        }
    }

    /// Adds a media entry; an entry counting as the same media is refused,
    /// a book or audio book with `BookIsbnAlreadyExists`, the rest with
    /// `MediaAlreadyExists`. An entry already filed under the same id is
    /// silently replaced.
    #[verifier::loop_isolation(false)]
    pub fn add(&mut self, media: Media) -> (r: Result<(), ErrorKind>)
        requires
            old(self).wf(),
        ensures
            final(self).wf(),
            old(self).spec_contains(media) && media.media_type.isbns() is Some ==> (r matches Err(
                ErrorKind::BookIsbnAlreadyExists,
            )) && *final(self) == *old(self),
            old(self).spec_contains(media) && media.media_type.isbns() is None ==> (r matches Err(
                ErrorKind::MediaAlreadyExists(_),
            )) && *final(self) == *old(self),
            !old(self).spec_contains(media) && !old(self).has_id(media.id) ==> r is Ok && final(self).catalogue@ == old(self).catalogue@.push(media),
            !old(self).spec_contains(media) && old(self).has_id(media.id) ==> r is Ok && final(self).catalogue@ == old(self).catalogue@.update(old(self).id_index(media.id), media),
    {
        if self.contains(&media) {
            return match &media.media_type {
                MediaType::Book { .. } => Err(ErrorKind::BookIsbnAlreadyExists),
                MediaType::AudioBook { .. } => Err(ErrorKind::BookIsbnAlreadyExists),
                _ => Err(ErrorKind::MediaAlreadyExists(media.media_type.type_to_string())),
            };
        }
        proof {
            lemma_first_media_with_id(self.catalogue@, media.id);
        }
        let n = self.catalogue.len();
        let mut i: usize = 0;
        while i < n
            invariant
                0 <= i <= n,
                *self == *old(self),
                forall|k: int| 0 <= k < i ==> self.catalogue@[k].id != media.id,
            decreases n - i,
        {
            if self.catalogue[i].id == media.id {
                let slot = &mut self.catalogue[i];
                *slot = media;
                return Ok(());
            }
            i = i + 1;
        }
        self.catalogue.push(media);
        Ok(())
    }

    /// Removes the entry under `id`; fails when none is held.
    #[verifier::loop_isolation(false)]
    pub fn remove(&mut self, id: u64) -> (r: Result<(), ErrorKind>)
        requires
            old(self).wf(),
        ensures
            final(self).wf(),
            !old(self).has_id(id) ==> (r matches Err(ErrorKind::MediaNotFound(n)) && n == id)
                && *final(self) == *old(self),
            old(self).has_id(id) ==> r is Ok && final(self).catalogue@ == old(self).catalogue@.remove(old(self).id_index(id)),
    {
        proof {
            lemma_first_media_with_id(self.catalogue@, id);
        }
        let n = self.catalogue.len();
        let mut i: usize = 0;
        while i < n
            invariant
                0 <= i <= n,
                *self == *old(self),
                forall|k: int| 0 <= k < i ==> self.catalogue@[k].id != id,
            decreases n - i,
        {
            if self.catalogue[i].id == id {
                let ghost s0 = self.catalogue@;
                self.catalogue.remove(i);
                proof {
                    assert forall|a: int, b: int|
                        0 <= a < b < self.catalogue@.len() implies self.catalogue@[a].id
                        != self.catalogue@[b].id by {
                        assert(self.catalogue@[a] == if a < i {
                            s0[a]
                        } else {
                            s0[a + 1]
                        });
                        assert(self.catalogue@[b] == if b < i {
                            s0[b]
                        } else {
                            s0[b + 1]
                        });
                    }
                }
                return Ok(());
            }
            i = i + 1;
        }
        Err(ErrorKind::MediaNotFound(id))
    }

    /// Every entry, in insertion order.
    #[verifier::loop_isolation(false)]
    pub fn list(&self) -> (r: Vec<&Media>)
        ensures
            r@.len() == self.catalogue@.len(),
            forall|k: int| 0 <= k < r@.len() ==> *(#[trigger] r@[k]) == self.catalogue@[k],
    {
        let n = self.catalogue.len();
        let mut out: Vec<&Media> = Vec::new();
        let mut i: usize = 0;
        while i < n
            invariant
                0 <= i <= n,
                out@.len() == i,
                forall|k: int| 0 <= k < i ==> *(#[trigger] out@[k]) == self.catalogue@[k],
            decreases n - i,
        {
            out.push(&self.catalogue[i]);
            i = i + 1;
        }
        out
    }

    /// The entries whose kind name matches `media_type`, compared with
    /// blanks dropped and case folded, in catalog order.
    #[verifier::loop_isolation(false)]
    pub fn list_media_type(&self, media_type: &str) -> (r: Vec<&Media>)
        ensures
            forall|j: int|
                0 <= j < r@.len() ==> in_catalogue(self.catalogue@, *(#[trigger] r@[j]))
                    && kind_matches(*r@[j], media_type@),
            forall|k: int|
                0 <= k < self.catalogue@.len() && kind_matches(
                    #[trigger] self.catalogue@[k],
                    media_type@,
                ) ==> among(r@, self.catalogue@[k]),
    {
        let asked = lowercase(strip_blanks(media_type).as_str());
        let n = self.catalogue.len();
        let mut out: Vec<&Media> = Vec::new();
        let mut i: usize = 0;
        while i < n
            invariant
                0 <= i <= n,
                asked@ == lower_of(without_blanks(media_type@)),
                forall|j: int|
                    0 <= j < out@.len() ==> in_catalogue(self.catalogue@, *(#[trigger] out@[j]))
                        && kind_matches(*out@[j], media_type@),
                forall|k: int|
                    0 <= k < i && kind_matches(#[trigger] self.catalogue@[k], media_type@)
                        ==> among(out@, self.catalogue@[k]),
            decreases n - i,
        {
            let own_kind = lowercase(strip_blanks(self.catalogue[i].media_type.as_str()).as_str());
            let ghost out0 = out@;
            if str_eq(own_kind.as_str(), asked.as_str()) {
                proof {
                    assert(self.catalogue@[i as int] == self.catalogue@[i as int]);
                    assert(in_catalogue(self.catalogue@, self.catalogue@[i as int]));
                    assert(kind_matches(self.catalogue@[i as int], media_type@));
                }
                out.push(&self.catalogue[i]);
                proof {
                    assert(*out@[out@.len() - 1] == self.catalogue@[i as int]);
                    assert forall|k: int|
                        0 <= k < i + 1 && kind_matches(
                            #[trigger] self.catalogue@[k],
                            media_type@,
                        ) implies among(out@, self.catalogue@[k]) by {
                        if k < i {
                            let j = choose|j: int|
                                0 <= j < out0.len() && *out0[j] == self.catalogue@[k];
                            assert(*out@[j] == self.catalogue@[k]);
                        } else {
                            assert(among(out@, self.catalogue@[i as int]));
                        }
                    }
                }
            } else {
                proof {
                    assert(!kind_matches(self.catalogue@[i as int], media_type@));
                }
            }
            i = i + 1;
        }
        out
    }

    /// The available entries, in order.
    #[verifier::loop_isolation(false)]
    pub fn list_available(&self) -> (r: Vec<&Media>)
        ensures
            forall|j: int|
                0 <= j < r@.len() ==> (#[trigger] r@[j]).available && exists|k: int|
                    0 <= k < self.catalogue@.len() && *r@[j] == self.catalogue@[k],
    {
        let n = self.catalogue.len();
        let mut out: Vec<&Media> = Vec::new();
        let mut i: usize = 0;
        while i < n
            invariant
                0 <= i <= n,
                forall|j: int|
                    0 <= j < out@.len() ==> (#[trigger] out@[j]).available && exists|k: int|
                        0 <= k < self.catalogue@.len() && *out@[j] == self.catalogue@[k],
            decreases n - i,
        {
            if self.catalogue[i].available {
                out.push(&self.catalogue[i]);
            }
            i = i + 1;
        }
        out
    }

    /// The available entries of one kind, compared case-insensitively.
    #[verifier::loop_isolation(false)]
    pub fn list_available_from_type(&self, media_type: &str) -> (r: Vec<&Media>)
        ensures
            forall|j: int|
                0 <= j < r@.len() ==> (#[trigger] r@[j]).available && exists|k: int|
                    0 <= k < self.catalogue@.len() && *r@[j] == self.catalogue@[k],
    {
        let n = self.catalogue.len();
        let mut out: Vec<&Media> = Vec::new();
        let mut i: usize = 0;
        while i < n
            invariant
                0 <= i <= n,
                forall|j: int|
                    0 <= j < out@.len() ==> (#[trigger] out@[j]).available && exists|k: int|
                        0 <= k < self.catalogue@.len() && *out@[j] == self.catalogue@[k],
            decreases n - i,
        {
            let own_kind = lowercase(self.catalogue[i].media_type.as_str());
            let asked = lowercase(media_type);
            if self.catalogue[i].available && str_eq(own_kind.as_str(), asked.as_str()) {
                out.push(&self.catalogue[i]);
            }
            i = i + 1;
        }
        out
    }

    /// The borrowed entries, in order.
    #[verifier::loop_isolation(false)]
    pub fn list_borrowed(&self) -> (r: Vec<&Media>)
        ensures
            forall|j: int|
                0 <= j < r@.len() ==> !(#[trigger] r@[j]).available && exists|k: int|
                    0 <= k < self.catalogue@.len() && *r@[j] == self.catalogue@[k],
    {
        let n = self.catalogue.len();
        let mut out: Vec<&Media> = Vec::new();
        let mut i: usize = 0;
        while i < n
            invariant
                0 <= i <= n,
                forall|j: int|
                    0 <= j < out@.len() ==> !(#[trigger] out@[j]).available && exists|k: int|
                        0 <= k < self.catalogue@.len() && *out@[j] == self.catalogue@[k],
            decreases n - i,
        {
            if !self.catalogue[i].available {
                out.push(&self.catalogue[i]);
            }
            i = i + 1;
        }
        out
    }

    /// The borrowed entries of one kind, compared exactly.
    #[verifier::loop_isolation(false)]
    pub fn list_borrowed_from_type(&self, media_type: &str) -> (r: Vec<&Media>)
        ensures
            forall|j: int|
                0 <= j < r@.len() ==> !(#[trigger] r@[j]).available && r@[j].media_type.name()
                    == media_type@ && exists|k: int|
                    0 <= k < self.catalogue@.len() && *r@[j] == self.catalogue@[k],
    {
        let n = self.catalogue.len();
        let mut out: Vec<&Media> = Vec::new();
        let mut i: usize = 0;
        while i < n
            invariant
                0 <= i <= n,
                forall|j: int|
                    0 <= j < out@.len() ==> !(#[trigger] out@[j]).available
                        && out@[j].media_type.name() == media_type@ && exists|k: int|
                        0 <= k < self.catalogue@.len() && *out@[j] == self.catalogue@[k],
            decreases n - i,
        {
            if !self.catalogue[i].available && str_eq(
                self.catalogue[i].media_type.as_str(),
                media_type,
            ) {
                out.push(&self.catalogue[i]);
            }
            i = i + 1;
        }
        out
    }

    /// Borrows the entry under `id`: only an available entry can go out.
    #[verifier::loop_isolation(false)]
    pub fn borrow(&mut self, id: u64) -> (r: Result<(), ErrorKind>)
        requires
            old(self).wf(),
        ensures
            final(self).wf(),
            !old(self).has_id(id) ==> (r matches Err(ErrorKind::MediaNotFound(n)) && n == id)
                && *final(self) == *old(self),
            old(self).has_id(id) && !old(self).catalogue@[old(self).id_index(id)].available ==> (
            r matches Err(ErrorKind::MediaNotAvailable(n)) && n == id) && *final(self) == *old(self),
            old(self).has_id(id) && old(self).catalogue@[old(self).id_index(id)].available ==> r
                is Ok && final(self).catalogue@ == old(self).catalogue@.update(
                old(self).id_index(id),
                Media { available: false, ..old(self).catalogue@[old(self).id_index(id)] },
            ),
    {
        proof {
            lemma_first_media_with_id(self.catalogue@, id);
        }
        let n = self.catalogue.len();
        let mut i: usize = 0;
        while i < n
            invariant
                0 <= i <= n,
                *self == *old(self),
                forall|k: int| 0 <= k < i ==> self.catalogue@[k].id != id,
            decreases n - i,
        {
            if self.catalogue[i].id == id {
                if !self.catalogue[i].available {
                    return Err(ErrorKind::MediaNotAvailable(id));
                }
                let m = &mut self.catalogue[i];
                m.available = false;
                return Ok(());
            }
            i = i + 1;
        }
        Err(ErrorKind::MediaNotFound(id))
    }

    /// Returns the entry under `id`: only a borrowed entry can come back.
    #[verifier::loop_isolation(false)]
    pub fn return_media(&mut self, id: u64) -> (r: Result<(), ErrorKind>)
        requires
            old(self).wf(),
        ensures
            final(self).wf(),
            !old(self).has_id(id) ==> (r matches Err(ErrorKind::MediaNotFound(n)) && n == id)
                && *final(self) == *old(self),
            old(self).has_id(id) && old(self).catalogue@[old(self).id_index(id)].available ==> (
            r matches Err(ErrorKind::MediaAlreadyAvailable(n)) && n == id) && *final(self) == *old(self),
            old(self).has_id(id) && !old(self).catalogue@[old(self).id_index(id)].available ==> r
                is Ok && final(self).catalogue@ == old(self).catalogue@.update(
                old(self).id_index(id),
                Media { available: true, ..old(self).catalogue@[old(self).id_index(id)] },
            ),
    {
        proof {
            lemma_first_media_with_id(self.catalogue@, id);
        }
        let n = self.catalogue.len();
        let mut i: usize = 0;
        while i < n
            invariant
                0 <= i <= n,
                *self == *old(self),
                forall|k: int| 0 <= k < i ==> self.catalogue@[k].id != id,
            decreases n - i,
        {
            if self.catalogue[i].id == id {
                if self.catalogue[i].available {
                    return Err(ErrorKind::MediaAlreadyAvailable(id));
                }
                let m = &mut self.catalogue[i];
                m.available = true;
                return Ok(());
            }
            i = i + 1;
        }
        Err(ErrorKind::MediaNotFound(id))
    }

    /// The entries whose author contains every term, case-insensitively;
    /// with no match the folded terms come back in the error.
    #[verifier::loop_isolation(false)]
    pub fn search_author(&self, terms: Vec<String>) -> (r: Result<Vec<&Media>, ErrorKind>)
        ensures
            r matches Ok(v) ==> v@.len() >= 1 && forall|j: int|
                0 <= j < v@.len() ==> (exists|k: int|
                    0 <= k < self.catalogue@.len() && *(#[trigger] v@[j]) == self.catalogue@[k])
                    && forall|t: int|
                    0 <= t < terms@.len() ==> contains_sub(
                        lower_of((#[trigger] v@[j]).author@),
                        lower_of(terms@[t]@),
                    ),
            r is Err ==> (r matches Err(ErrorKind::AuthorNotFound(_))),
    {
        let folded = lowercase_all(&terms);
        let n = self.catalogue.len();
        let mut out: Vec<&Media> = Vec::new();
        let mut i: usize = 0;
        while i < n
            invariant
                0 <= i <= n,
                folded@.len() == terms@.len(),
                forall|t: int| 0 <= t < terms@.len() ==> (#[trigger] folded@[t])@ == lower_of(terms@[t]@),
                forall|j: int|
                    0 <= j < out@.len() ==> (exists|k: int|
                        0 <= k < self.catalogue@.len() && *(#[trigger] out@[j])
                            == self.catalogue@[k]) && forall|t: int|
                        0 <= t < terms@.len() ==> contains_sub(
                            lower_of((#[trigger] out@[j]).author@),
                            lower_of(terms@[t]@),
                        ),
            decreases n - i,
        {
            let hay = lowercase(self.catalogue[i].author.as_str());
            if all_terms_in(&hay, &folded) {
                proof {
                    assert forall|t: int| 0 <= t < terms@.len() implies contains_sub(
                        lower_of(self.catalogue@[i as int].author@),
                        lower_of(terms@[t]@),
                    ) by {
                        assert(contains_sub(hay@, folded@[t]@));
                    }
                }
                let ghost out0 = out@;
                out.push(&self.catalogue[i]);
                proof {
                    assert forall|j: int| 0 <= j < out@.len() implies (exists|k: int|
                        0 <= k < self.catalogue@.len() && *(#[trigger] out@[j])
                            == self.catalogue@[k]) && forall|t: int|
                        0 <= t < terms@.len() ==> contains_sub(
                            lower_of((#[trigger] out@[j]).author@),
                            lower_of(terms@[t]@),
                        ) by {
                        if j < out0.len() {
                            let k = choose|k: int|
                                0 <= k < self.catalogue@.len() && *(#[trigger] out0[j])
                                    == self.catalogue@[k];
                            assert(*out@[j] == self.catalogue@[k]);
                        } else {
                            assert(*out@[j] == self.catalogue@[i as int]);
                        }
                    }
                }
            }
            i = i + 1;
        }
        if out.len() == 0 {
            Err(ErrorKind::AuthorNotFound(folded))
        } else {
            Ok(out)
        }
    }

    /// The entries whose title contains every term, case-insensitively.
    #[verifier::loop_isolation(false)]
    pub fn search_title(&self, terms: Vec<String>) -> (r: Result<Vec<&Media>, ErrorKind>)
        ensures
            r matches Ok(v) ==> v@.len() >= 1 && forall|j: int|
                0 <= j < v@.len() ==> (exists|k: int|
                    0 <= k < self.catalogue@.len() && *(#[trigger] v@[j]) == self.catalogue@[k])
                    && forall|t: int|
                    0 <= t < terms@.len() ==> contains_sub(
                        lower_of((#[trigger] v@[j]).title@),
                        lower_of(terms@[t]@),
                    ),
            r is Err ==> (r matches Err(ErrorKind::TitleNotFound(_))),
    {
        let folded = lowercase_all(&terms);
        let n = self.catalogue.len();
        let mut out: Vec<&Media> = Vec::new();
        let mut i: usize = 0;
        while i < n
            invariant
                0 <= i <= n,
                folded@.len() == terms@.len(),
                forall|t: int| 0 <= t < terms@.len() ==> (#[trigger] folded@[t])@ == lower_of(terms@[t]@),
                forall|j: int|
                    0 <= j < out@.len() ==> (exists|k: int|
                        0 <= k < self.catalogue@.len() && *(#[trigger] out@[j])
                            == self.catalogue@[k]) && forall|t: int|
                        0 <= t < terms@.len() ==> contains_sub(
                            lower_of((#[trigger] out@[j]).title@),
                            lower_of(terms@[t]@),
                        ),
            decreases n - i,
        {
            let hay = lowercase(self.catalogue[i].title.as_str());
            if all_terms_in(&hay, &folded) {
                proof {
                    assert forall|t: int| 0 <= t < terms@.len() implies contains_sub(
                        lower_of(self.catalogue@[i as int].title@),
                        lower_of(terms@[t]@),
                    ) by {
                        assert(contains_sub(hay@, folded@[t]@));
                    }
                }
                let ghost out0 = out@;
                out.push(&self.catalogue[i]);
                proof {
                    assert forall|j: int| 0 <= j < out@.len() implies (exists|k: int|
                        0 <= k < self.catalogue@.len() && *(#[trigger] out@[j])
                            == self.catalogue@[k]) && forall|t: int|
                        0 <= t < terms@.len() ==> contains_sub(
                            lower_of((#[trigger] out@[j]).title@),
                            lower_of(terms@[t]@),
                        ) by {
                        if j < out0.len() {
                            let k = choose|k: int|
                                0 <= k < self.catalogue@.len() && *(#[trigger] out0[j])
                                    == self.catalogue@[k];
                            assert(*out@[j] == self.catalogue@[k]);
                        } else {
                            assert(*out@[j] == self.catalogue@[i as int]);
                        }
                    }
                }
            }
            i = i + 1;
        }
        if out.len() == 0 {
            Err(ErrorKind::TitleNotFound(folded))
        } else {
            Ok(out)
        }
    }

    /// The entries carrying every keyword, compared case-insensitively
    /// against the stored, already-folded keywords; with no match the folded
    /// keywords come back in the error.
    #[verifier::loop_isolation(false)]
    pub fn search_keywords(&self, keywords: Vec<String>) -> (r: Result<Vec<&Media>, ErrorKind>)
        ensures
            r matches Ok(v) ==> v@.len() >= 1 && forall|j: int|
                0 <= j < v@.len() ==> in_catalogue(self.catalogue@, *(#[trigger] v@[j]))
                    && carries_all(*v@[j], keywords@),
            r matches Ok(v) ==> forall|k: int|
                0 <= k < self.catalogue@.len() && carries_all(
                    #[trigger] self.catalogue@[k],
                    keywords@,
                ) ==> among(v@, self.catalogue@[k]),
            r is Err ==> (r matches Err(ErrorKind::KeywordNotFound(_))) && forall|k: int|
                0 <= k < self.catalogue@.len() ==> !carries_all(
                    #[trigger] self.catalogue@[k],
                    keywords@,
                ),
    {
        let folded = lowercase_all(&keywords);
        let n = self.catalogue.len();
        let mut out: Vec<&Media> = Vec::new();
        let mut i: usize = 0;
        while i < n
            invariant
                0 <= i <= n,
                folded@.len() == keywords@.len(),
                forall|t: int|
                    0 <= t < keywords@.len() ==> (#[trigger] folded@[t])@ == lower_of(
                        keywords@[t]@,
                    ),
                forall|j: int|
                    0 <= j < out@.len() ==> in_catalogue(self.catalogue@, *(#[trigger] out@[j]))
                        && carries_all(*out@[j], keywords@),
                forall|k: int|
                    0 <= k < i && carries_all(#[trigger] self.catalogue@[k], keywords@) ==> among(
                        out@,
                        self.catalogue@[k],
                    ),
            decreases n - i,
        {
            let ghost out0 = out@;
            if has_all_keywords(&self.catalogue[i].keywords, &folded) {
                proof {
                    assert(self.catalogue@[i as int] == self.catalogue@[i as int]);
                    assert(in_catalogue(self.catalogue@, self.catalogue@[i as int]));
                    assert(carries_all(self.catalogue@[i as int], keywords@)) by {
                        assert forall|t: int| 0 <= t < keywords@.len() implies keyword_held(
                            self.catalogue@[i as int].keywords@,
                            lower_of((#[trigger] keywords@[t])@),
                        ) by {
                            assert(keyword_held(
                                self.catalogue@[i as int].keywords@,
                                folded@[t]@,
                            ));
                        }
                    }
                }
                out.push(&self.catalogue[i]);
                proof {
                    assert(*out@[out@.len() - 1] == self.catalogue@[i as int]);
                    assert forall|k: int|
                        0 <= k < i + 1 && carries_all(
                            #[trigger] self.catalogue@[k],
                            keywords@,
                        ) implies among(out@, self.catalogue@[k]) by {
                        if k < i {
                            let j = choose|j: int|
                                0 <= j < out0.len() && *out0[j] == self.catalogue@[k];
                            assert(*out@[j] == self.catalogue@[k]);
                        } else {
                            assert(among(out@, self.catalogue@[i as int]));
                        }
                    }
                }
            } else {
                proof {
                    assert(!carries_all(self.catalogue@[i as int], keywords@)) by {
                        if carries_all(self.catalogue@[i as int], keywords@) {
                            assert forall|t: int| 0 <= t < folded@.len() implies keyword_held(
                                self.catalogue@[i as int].keywords@,
                                (#[trigger] folded@[t])@,
                            ) by {
                                assert(keyword_held(
                                    self.catalogue@[i as int].keywords@,
                                    lower_of(keywords@[t]@),
                                ));
                            }
                        }
                    }
                }
            }
            i = i + 1;
        }
        if out.len() == 0 {
            proof {
                assert forall|k: int| 0 <= k < self.catalogue@.len() implies !carries_all(
                    #[trigger] self.catalogue@[k],
                    keywords@,
                ) by {
                    if carries_all(self.catalogue@[k], keywords@) {
                        assert(among(out@, self.catalogue@[k]));
                        let j = choose|j: int|
                            0 <= j < out@.len() && *out@[j] == self.catalogue@[k];
                    }
                }
            }
            Err(ErrorKind::KeywordNotFound(folded))
        } else {
            Ok(out)
        }
    }

    /// Renames the entry under `id`.
    #[verifier::loop_isolation(false)]
    pub fn change_title(&mut self, id: u64, title: &str) -> (r: Result<(), ErrorKind>)
        requires
            old(self).wf(),
        ensures
            final(self).wf(),
            !old(self).has_id(id) ==> (r matches Err(ErrorKind::MediaNotFound(n)) && n == id)
                && *final(self) == *old(self),
            old(self).has_id(id) ==> r is Ok && final(self).catalogue@.len() == old(self).catalogue@.len() && final(self).catalogue@[old(self).id_index(id)].title@ == title@
                && final(self).catalogue@[old(self).id_index(id)].id == id && forall|k: int|
                0 <= k < old(self).catalogue@.len() && k != old(self).id_index(id)
                    ==> final(self).catalogue@[k] == old(self).catalogue@[k],
    {
        proof {
            lemma_first_media_with_id(self.catalogue@, id);
        }
        let n = self.catalogue.len();
        let mut i: usize = 0;
        while i < n
            invariant
                0 <= i <= n,
                *self == *old(self),
                forall|k: int| 0 <= k < i ==> self.catalogue@[k].id != id,
            decreases n - i,
        {
            if self.catalogue[i].id == id {
                let m = &mut self.catalogue[i];
                m.title = title.to_owned();
                return Ok(());
            }
            i = i + 1;
        }
        Err(ErrorKind::MediaNotFound(id))
    }

    /// Changes the author of the entry under `id`.
    #[verifier::loop_isolation(false)]
    pub fn change_author(&mut self, id: u64, author: &str) -> (r: Result<(), ErrorKind>)
        requires
            old(self).wf(),
        ensures
            final(self).wf(),
            !old(self).has_id(id) ==> (r matches Err(ErrorKind::MediaNotFound(n)) && n == id)
                && *final(self) == *old(self),
            old(self).has_id(id) ==> r is Ok && final(self).catalogue@.len() == old(self).catalogue@.len() && final(self).catalogue@[old(self).id_index(id)].author@ == author@
                && final(self).catalogue@[old(self).id_index(id)].id == id && forall|k: int|
                0 <= k < old(self).catalogue@.len() && k != old(self).id_index(id)
                    ==> final(self).catalogue@[k] == old(self).catalogue@[k],
    {
        proof {
            lemma_first_media_with_id(self.catalogue@, id);
        }
        let n = self.catalogue.len();
        let mut i: usize = 0;
        while i < n
            invariant
                0 <= i <= n,
                *self == *old(self),
                forall|k: int| 0 <= k < i ==> self.catalogue@[k].id != id,
            decreases n - i,
        {
            if self.catalogue[i].id == id {
                let m = &mut self.catalogue[i];
                m.author = author.to_owned();
                return Ok(());
            }
            i = i + 1;
        }
        Err(ErrorKind::MediaNotFound(id))
    }

    /// Replaces the keyword list of the entry under `id`, case-folded.
    #[verifier::loop_isolation(false)]
    pub fn change_keywords(&mut self, id: u64, keywords: Vec<String>) -> (r: Result<
        (),
        ErrorKind,
    >)
        requires
            old(self).wf(),
        ensures
            final(self).wf(),
            !old(self).has_id(id) ==> (r matches Err(ErrorKind::MediaNotFound(n)) && n == id)
                && *final(self) == *old(self),
            old(self).has_id(id) ==> r is Ok && final(self).catalogue@.len() == old(self).catalogue@.len() && final(self).catalogue@[old(self).id_index(id)].keywords@.len()
                == keywords@.len() && (forall|t: int|
                0 <= t < keywords@.len() ==> (#[trigger] final(self).catalogue@[old(self).id_index(
                    id,
                )].keywords@[t])@ == lower_of(keywords@[t]@)) && forall|k: int|
                0 <= k < old(self).catalogue@.len() && k != old(self).id_index(id)
                    ==> final(self).catalogue@[k] == old(self).catalogue@[k],
    {
        proof {
            lemma_first_media_with_id(self.catalogue@, id);
        }
        let folded = lowercase_all(&keywords);
        let n = self.catalogue.len();
        let mut i: usize = 0;
        while i < n
            invariant
                0 <= i <= n,
                *self == *old(self),
                folded@.len() == keywords@.len(),
                forall|t: int|
                    0 <= t < keywords@.len() ==> (#[trigger] folded@[t])@ == lower_of(
                        keywords@[t]@,
                    ),
                forall|k: int| 0 <= k < i ==> self.catalogue@[k].id != id,
            decreases n - i,
        {
            if self.catalogue[i].id == id {
                let m = &mut self.catalogue[i];
                m.keywords = folded;
                return Ok(());
            }
            i = i + 1;
        }
        Err(ErrorKind::MediaNotFound(id))
    }

    /// Sets the year of the entry under `id`.
    #[verifier::loop_isolation(false)]
    pub fn change_year(&mut self, id: u64, year: u16) -> (r: Result<(), ErrorKind>)
        requires
            old(self).wf(),
        ensures
            final(self).wf(),
            !old(self).has_id(id) ==> (r matches Err(ErrorKind::MediaNotFound(n)) && n == id)
                && *final(self) == *old(self),
            old(self).has_id(id) ==> r is Ok && final(self).catalogue@ == old(self).catalogue@.update(
                old(self).id_index(id),
                Media { year: Some(year), ..old(self).catalogue@[old(self).id_index(id)] },
            ),
    {
        proof {
            lemma_first_media_with_id(self.catalogue@, id);
        }
        let n = self.catalogue.len();
        let mut i: usize = 0;
        while i < n
            invariant
                0 <= i <= n,
                *self == *old(self),
                forall|k: int| 0 <= k < i ==> self.catalogue@[k].id != id,
            decreases n - i,
        {
            if self.catalogue[i].id == id {
                let m = &mut self.catalogue[i];
                m.year = Some(year);
                return Ok(());
            }
            i = i + 1;
        }
        Err(ErrorKind::MediaNotFound(id))
    }

    /// Files `isbn` into the matching slot of the entry under `id`:
    /// thirteen digits into the thirteen-digit slot, anything else into the
    /// ten-digit one. Entries without ISBNs are refused.
    #[verifier::loop_isolation(false)]
    pub fn change_isbn(&mut self, id: u64, isbn: u64) -> (r: Result<(), ErrorKind>)
        requires
            old(self).wf(),
        ensures
            final(self).wf(),
            !old(self).has_id(id) ==> (r matches Err(ErrorKind::MediaNotFound(n)) && n == id)
                && *final(self) == *old(self),
            old(self).has_id(id) && old(self).catalogue@[old(self).id_index(id)].media_type.isbns()
                is None ==> (r matches Err(ErrorKind::MediaDoesntHaveIsbn(_))) && final(self).catalogue@ == old(self).catalogue@,
            old(self).has_id(id) && old(self).catalogue@[old(self).id_index(id)].media_type.isbns()
                is Some ==> r is Ok && (final(self).catalogue@[old(self).id_index(
                id,
            )].media_type.isbns() matches Some(p) && (if spec_is_isbn13(isbn) {
                p.1 == Some(isbn)
            } else {
                p.0 == Some(isbn)
            })),
            old(self).has_id(id) ==> final(self).catalogue@.len() == old(self).catalogue@.len()
                && (forall|k: int|
                0 <= k < old(self).catalogue@.len() && k != old(self).id_index(id)
                    ==> final(self).catalogue@[k] == old(self).catalogue@[k]) && ({
                let m0 = old(self).catalogue@[old(self).id_index(id)];
                let m1 = final(self).catalogue@[old(self).id_index(id)];
                m1.id == m0.id && m1.title == m0.title && m1.author == m0.author && m1.year
                    == m0.year && m1.available == m0.available && m1.keywords == m0.keywords && (
                m0.media_type matches MediaType::Book { .. }
                    ==> m1.media_type matches MediaType::Book { .. }) && (
                m0.media_type matches MediaType::AudioBook { duration: d0, .. } ==> (
                m1.media_type matches MediaType::AudioBook { duration: d1, .. } && d1 == d0))
            }),
    {
        proof {
            lemma_first_media_with_id(self.catalogue@, id);
        }
        let n = self.catalogue.len();
        let mut i: usize = 0;
        while i < n
            invariant
                0 <= i <= n,
                *self == *old(self),
                forall|k: int| 0 <= k < i ==> self.catalogue@[k].id != id,
            decreases n - i,
        {
            if self.catalogue[i].id == id {
                let m = &mut self.catalogue[i];
                let res = if is_isbn13(isbn) {
                    m.media_type.change_isbn13(isbn)
                } else {
                    m.media_type.change_isbn10(isbn)
                };
                return match res {
                    Ok(()) => Ok(()),
                    Err(e) => Err(e),
                };
            }
            i = i + 1;
        }
        Err(ErrorKind::MediaNotFound(id))
    }

    /// Appends a case-folded keyword to the entry under `id`.
    #[verifier::loop_isolation(false)]
    pub fn add_keyword(&mut self, id: u64, keyword: &str) -> (r: Result<(), ErrorKind>)
        requires
            old(self).wf(),
        ensures
            final(self).wf(),
            !old(self).has_id(id) ==> (r matches Err(ErrorKind::MediaNotFound(n)) && n == id)
                && *final(self) == *old(self),
            old(self).has_id(id) ==> r is Ok && final(self).catalogue@.len() == old(self).catalogue@.len() && final(self).catalogue@[old(self).id_index(id)].keywords@.len()
                == old(self).catalogue@[old(self).id_index(id)].keywords@.len() + 1 && (final(self).catalogue@[old(self).id_index(id)].keywords@.last())@ == lower_of(keyword@),
    {
        proof {
            lemma_first_media_with_id(self.catalogue@, id);
        }
        let n = self.catalogue.len();
        let mut i: usize = 0;
        while i < n
            invariant
                0 <= i <= n,
                *self == *old(self),
                forall|k: int| 0 <= k < i ==> self.catalogue@[k].id != id,
            decreases n - i,
        {
            if self.catalogue[i].id == id {
                let folded = lowercase(keyword);
                let m = &mut self.catalogue[i];
                m.keywords.push(folded);
                return Ok(());
            }
            i = i + 1;
        }
        Err(ErrorKind::MediaNotFound(id))
    }

    /// Drops every copy of a keyword, compared case-folded, from the entry
    /// under `id`.
    #[verifier::loop_isolation(false)]
    pub fn remove_keyword(&mut self, id: u64, keyword: &str) -> (r: Result<(), ErrorKind>)
        requires
            old(self).wf(),
        ensures
            final(self).wf(),
            !old(self).has_id(id) ==> (r matches Err(ErrorKind::MediaNotFound(n)) && n == id)
                && *final(self) == *old(self),
            old(self).has_id(id) ==> r is Ok && final(self).catalogue@.len() == old(self).catalogue@.len() && (forall|t: int|
                0 <= t < final(self).catalogue@[old(self).id_index(id)].keywords@.len() ==> (
                #[trigger] final(self).catalogue@[old(self).id_index(id)].keywords@[t])@
                    != lower_of(keyword@)),
    {
        proof {
            lemma_first_media_with_id(self.catalogue@, id);
        }
        let n = self.catalogue.len();
        let mut i: usize = 0;
        while i < n
            invariant
                0 <= i <= n,
                *self == *old(self),
                forall|k: int| 0 <= k < i ==> self.catalogue@[k].id != id,
            decreases n - i,
        {
            if self.catalogue[i].id == id {
                let folded = lowercase(keyword);
                let kws = &self.catalogue[i].keywords;
                let kn = kws.len();
                let mut kept: Vec<String> = Vec::new();
                let mut t: usize = 0;
                while t < kn
                    invariant
                        0 <= t <= kn,
                        kn == self.catalogue@[i as int].keywords@.len(),
                        folded@ == lower_of(keyword@),
                        forall|u: int| 0 <= u < kept@.len() ==> (#[trigger] kept@[u])@ != folded@,
                    decreases kn - t,
                {
                    if !str_eq(kws[t].as_str(), folded.as_str()) {
                        kept.push(kws[t].clone());
                    }
                    t = t + 1;
                }
                let m = &mut self.catalogue[i];
                m.keywords = kept;
                return Ok(());
            }
            i = i + 1;
        }
        Err(ErrorKind::MediaNotFound(id))
    }

    /// The entry under `id`, when the catalog holds one.
    #[verifier::loop_isolation(false)]
    pub fn get(&self, id: u64) -> (r: Result<&Media, ErrorKind>)
        requires
            self.wf(),
        ensures
            (r is Ok) <==> self.has_id(id),
            r matches Ok(m) ==> *m == self.catalogue@[self.id_index(id)] && m.id == id,
            r is Err ==> (r matches Err(ErrorKind::MediaNotFound(n)) && n == id),
    {
        proof {
            lemma_first_media_with_id(self.catalogue@, id);
        }
        let n = self.catalogue.len();
        let mut i: usize = 0;
        while i < n
            invariant
                0 <= i <= n,
                forall|k: int| 0 <= k < i ==> self.catalogue@[k].id != id,
            decreases n - i,
        {
            if self.catalogue[i].id == id {
                return Ok(&self.catalogue[i]);
            }
            i = i + 1;
        }
        Err(ErrorKind::MediaNotFound(id))
    }

    /// The first book or audio book carrying `isbn`. A scan that meets a
    /// kind without ISBNs first stops there, as the catalog's lookup always
    /// has; in a catalog of books and audio books alone the lookup succeeds
    /// exactly when some entry carries the ISBN.
    #[verifier::loop_isolation(false)]
    pub fn get_by_isbn(&self, isbn: u64) -> (r: Result<&Media, ErrorKind>)
        ensures
            r matches Ok(m) ==> m.media_type.spec_check_isbn(isbn) && exists|k: int|
                0 <= k < self.catalogue@.len() && *m == self.catalogue@[k],
            (forall|k: int|
                0 <= k < self.catalogue@.len() ==> (#[trigger] self.catalogue@[k]).media_type.isbns()
                    is Some) && some_isbn_held(self.catalogue@, isbn) ==> r is Ok,
            (forall|k: int|
                0 <= k < self.catalogue@.len() ==> (#[trigger] self.catalogue@[k]).media_type.isbns()
                    is Some) && !some_isbn_held(self.catalogue@, isbn) ==> (r matches Err(
                ErrorKind::MediaNotFound(n2),
            ) && n2 == isbn),
    {
        let n = self.catalogue.len();
        let mut i: usize = 0;
        while i < n
            invariant
                0 <= i <= n,
                forall|k: int|
                    0 <= k < i ==> !(#[trigger] self.catalogue@[k]).media_type.spec_check_isbn(
                        isbn,
                    ),
            decreases n - i,
        {
            match &self.catalogue[i].media_type {
                MediaType::Book { .. } => {
                    if self.catalogue[i].media_type.check_isbn(isbn) {
                        return Ok(&self.catalogue[i]);
                    }
                },
                MediaType::AudioBook { .. } => {
                    if self.catalogue[i].media_type.check_isbn(isbn) {
                        return Ok(&self.catalogue[i]);
                    }
                },
                _ => {
                    proof {
                        assert(self.catalogue@[i as int].media_type.isbns() is None);
                    }
                    return Err(
                        ErrorKind::MediaDoesntHaveIsbn(self.catalogue[i].type_to_string()),
                    );
                },
            }
            i = i + 1;
        }
        Err(ErrorKind::MediaNotFound(isbn))
    }

    /// The first entry matching `title` and `author`, case-insensitively.
    #[verifier::loop_isolation(false)]
    pub fn get_by_title(&self, title: &str, author: &str) -> (r: Result<&Media, ErrorKind>)
        ensures
            r matches Ok(m) ==> lower_of(m.title@) == lower_of(title@) && lower_of(m.author@)
                == lower_of(author@) && exists|k: int|
                0 <= k < self.catalogue@.len() && *m == self.catalogue@[k],
            r is Err ==> (r matches Err(ErrorKind::TitleByAuthorNotFound(t, a)) && t@ == title@
                && a@ == author@) && forall|k: int|
                0 <= k < self.catalogue@.len() ==> !(lower_of(
                    (#[trigger] self.catalogue@[k]).title@,
                ) == lower_of(title@) && lower_of(self.catalogue@[k].author@) == lower_of(
                    author@,
                )),
    {
        let wanted_title = lowercase(title);
        let wanted_author = lowercase(author);
        let n = self.catalogue.len();
        let mut i: usize = 0;
        while i < n
            invariant
                0 <= i <= n,
                wanted_title@ == lower_of(title@),
                wanted_author@ == lower_of(author@),
                forall|k: int|
                    0 <= k < i ==> !(lower_of((#[trigger] self.catalogue@[k]).title@) == lower_of(
                        title@,
                    ) && lower_of(self.catalogue@[k].author@) == lower_of(author@)),
            decreases n - i,
        {
            let own_title = lowercase(self.catalogue[i].title.as_str());
            let own_author = lowercase(self.catalogue[i].author.as_str());
            if str_eq(own_title.as_str(), wanted_title.as_str()) && str_eq(
                own_author.as_str(),
                wanted_author.as_str(),
            ) {
                return Ok(&self.catalogue[i]);
            }
            i = i + 1;
        }
        Err(ErrorKind::TitleByAuthorNotFound(title.to_owned(), author.to_owned()))
    }
}

/// Whether the folded haystack contains every folded needle.
#[verifier::loop_isolation(false)]
fn all_terms_in(hay: &String, folded: &Vec<String>) -> (r: bool)
    ensures
        r <==> forall|t: int|
            0 <= t < folded@.len() ==> contains_sub(hay@, (#[trigger] folded@[t])@),
{
    let n = folded.len();
    let mut t: usize = 0;
    while t < n
        invariant
            0 <= t <= n,
            forall|u: int| 0 <= u < t ==> contains_sub(hay@, (#[trigger] folded@[u])@),
        decreases n - t,
    {
        if !str_contains(hay.as_str(), folded[t].as_str()) {
            return false;
        }
        t = t + 1;
    }
    true
}

/// Whether the stored keyword list carries every folded keyword, by string
/// equality.
#[verifier::loop_isolation(false)]
fn has_all_keywords(stored: &Vec<String>, folded: &Vec<String>) -> (r: bool)
    ensures
        r <==> forall|t: int| 0 <= t < folded@.len() ==> keyword_held(stored@, (#[trigger] folded@[t])@),
{
    let n = folded.len();
    let mut t: usize = 0;
    while t < n
        invariant
            0 <= t <= n,
            forall|v: int| 0 <= v < t ==> keyword_held(stored@, (#[trigger] folded@[v])@),
        decreases n - t,
    {
        let m = stored.len();
        let mut u: usize = 0;
        let mut found = false;
        while u < m
            invariant
                0 <= u <= m,
                m == stored@.len(),
                found ==> exists|w: int|
                    0 <= w < stored@.len() && (#[trigger] stored@[w])@ == folded@[t as int]@,
                !found ==> forall|w: int| 0 <= w < u ==> (#[trigger] stored@[w])@ != folded@[t as int]@,
            decreases m - u,
        {
            if str_eq(stored[u].as_str(), folded[t].as_str()) {
                found = true;
            }
            u = u + 1;
        }
        if !found {
            proof {
                assert(!keyword_held(stored@, folded@[t as int]@)) by {
                    if keyword_held(stored@, folded@[t as int]@) {
                        let u = choose|u: int|
                            0 <= u < stored@.len() && (#[trigger] stored@[u])@ == folded@[t as int]@;
                    }
                }
            }
            return false;
        }
        proof {
            assert(keyword_held(stored@, folded@[t as int]@));
        }
        t = t + 1;
    }
    true
}

/// The first position in `s` whose media carries `id`; `s.len()` when none
/// does.
pub open spec fn first_media_with_id(s: Seq<Media>, id: u64) -> int
    decreases s.len(),
{
    if s.len() == 0 {
        0
    } else if s[0].id == id {
        0
    } else {
        1 + first_media_with_id(s.drop_first(), id)
    }
}

pub proof fn lemma_first_media_with_id(s: Seq<Media>, id: u64)
    ensures
        0 <= first_media_with_id(s, id) <= s.len(),
        first_media_with_id(s, id) < s.len() ==> s[first_media_with_id(s, id)].id == id,
        forall|k: int| 0 <= k < first_media_with_id(s, id) ==> s[k].id != id,
        first_media_with_id(s, id) == s.len() ==> forall|k: int| 0 <= k < s.len() ==> s[k].id != id,
    decreases s.len(),
{
    if s.len() > 0 && s[0].id != id {
        lemma_first_media_with_id(s.drop_first(), id);
        assert forall|k: int| 0 <= k < first_media_with_id(s, id) implies s[k].id != id by {
            if k > 0 {
                assert(s.drop_first()[k - 1].id != id);
            }
        }
        if first_media_with_id(s, id) == s.len() {
            assert forall|k: int| 0 <= k < s.len() implies s[k].id != id by {
                if k > 0 {
                    assert(s.drop_first()[k - 1].id != id);
                }
            }
        }
    }
}

} // verus!
