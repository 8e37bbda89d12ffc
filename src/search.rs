//! The parts of a project search that do not touch the database: the
//! ordering clause, the cleaning of the requested tags, and the text filter
//! on titles and readmes.
use crate::messages::strings_view;
use crate::text_search::{boyer_moore_search, kmp_search, matches_at};
use vstd::utf8::encode_utf8;
use vstd::prelude::*;
use vstd::string::StringExecFns;

verus! {

#[derive(Clone, Copy, Debug, PartialEq, Eq)]
pub enum SortOrder {
    Relevant,
    Title,
    Likes,
    UploadTime,
}

#[derive(Clone, Copy, Debug, PartialEq, Eq)]
pub enum SortDirection {
    Ascending,
    Descending,
}

#[derive(Clone, Debug)]
pub struct SearchQuery {
    pub query: String,
    pub tags: Vec<String>,
    pub lang: Option<String>,
    pub sort: Option<SortOrder>,
    pub dir: Option<SortDirection>,
}

pub open spec fn sort_column(s: SortOrder) -> Seq<char> {
    match s {
        SortOrder::Relevant => Seq::empty(),
        SortOrder::Title => "p.title"@,
        SortOrder::Likes => "pi.like_count"@,
        SortOrder::UploadTime => "p.upload_time"@,
    }
}

pub open spec fn direction_word(d: SortDirection) -> Seq<char> {
    match d {
        SortDirection::Ascending => " ASC"@,
        SortDirection::Descending => " DESC"@,
    }
}

/// The `ORDER BY` clause of a search: empty unless both an order other than
/// relevance and a direction are asked for.
pub open spec fn sort_clause_of(sort: Option<SortOrder>, dir: Option<SortDirection>) -> Seq<char> {
    match (sort, dir) {
        (Some(s), Some(d)) => if s == SortOrder::Relevant {
            Seq::empty()
        } else {
            "ORDER BY "@ + sort_column(s) + direction_word(d)
        },
        _ => Seq::empty(),
    }
}

/// The tags of `tags` that are not empty, in order.
pub open spec fn non_empty(tags: Seq<Seq<char>>) -> Seq<Seq<char>>
    decreases tags.len(),
{
    if tags.len() == 0 {
        Seq::empty()
    } else {
        let rest = non_empty(tags.drop_last());
        if tags.last().len() > 0 {
            rest.push(tags.last())
        } else {
            rest
        }
    }
}

impl SearchQuery {
    pub fn sort_clause(&self) -> (r: String)
        ensures
            r@ == sort_clause_of(self.sort, self.dir),
    {
        let (sort, dir) = match (self.sort, self.dir) {
            (Some(s), Some(d)) => (s, d),
            _ => {
                return String::new();
            },
        };
        let column = match sort {
            SortOrder::Relevant => {
                return String::new();
            },
            SortOrder::Title => "p.title",
            SortOrder::Likes => "pi.like_count",
            SortOrder::UploadTime => "p.upload_time",
        };
        let word = match dir {
            SortDirection::Ascending => " ASC",
            SortDirection::Descending => " DESC",
        };
        let mut out = String::from_str("ORDER BY ");
        out.append(column);
        out.append(word);
        out
    }

    /// Drops the empty tags.
    pub fn remove_empty_tags(&mut self)
        ensures
            strings_view(final(self).tags@) == non_empty(strings_view(old(self).tags@)),
            final(self).query == old(self).query,
            final(self).lang == old(self).lang,
            final(self).sort == old(self).sort,
            final(self).dir == old(self).dir,
    {
        let ghost v = strings_view(self.tags@);
        let mut kept: Vec<String> = Vec::new();
        let mut i: usize = 0;
        assert(v.take(0) =~= Seq::<Seq<char>>::empty());
        assert(strings_view(kept@) =~= Seq::<Seq<char>>::empty());
        while i < self.tags.len()
            invariant
                i <= self.tags@.len(),
                v == strings_view(self.tags@),
                strings_view(kept@) == non_empty(v.take(i as int)),
            decreases self.tags@.len() - i,
        {
            assert(v.take(i + 1).drop_last() =~= v.take(i as int));
            assert(v.take(i + 1).last() == self.tags@[i as int]@);
            if !self.tags[i].as_str().is_empty() {
                let t = self.tags[i].clone();
                assert(strings_view(kept@.push(t)) =~= strings_view(kept@).push(t@));
                kept.push(t);
            }
            i = i + 1;
        }
        assert(v.take(self.tags@.len() as int) =~= v);
        self.tags = kept;
    }
}

/// The lower-case form of `s`.
pub uninterp spec fn lower_of(s: Seq<char>) -> Seq<char>;

/// Relies on `str::to_lowercase`: the result depends on the characters alone.
#[verifier::external_body]
fn lowercase(s: &str) -> (r: String)
    ensures
        r@ == lower_of(s@),
{
    s.to_lowercase()
}

/// `query` occurs somewhere in `text`, byte for byte.
pub open spec fn occurs(text: Seq<char>, query: Seq<char>) -> bool {
    exists|s: int| matches_at(encode_utf8(text), encode_utf8(query), s)
}

pub open spec fn project_matches_spec(title: Seq<char>, readme: Seq<char>, query: Seq<char>) -> bool {
    occurs(title, query) || occurs(readme, query)
}

/// A project is kept when the query occurs in its title (searched with
/// Knuth-Morris-Pratt) or in its readme (searched with Boyer-Moore). The
/// texts are compared as given; `project_matches` lowers them first.
pub fn matches_lowered(title: &str, readme: &str, query: &str) -> (r: bool)
    ensures
        r == project_matches_spec(title@, readme@, query@),
{
    let q = query.as_bytes();
    if q.len() == 0 {
        assert(matches_at(encode_utf8(title@), encode_utf8(query@), 0)) by {
            assert(encode_utf8(title@).subrange(0, 0) =~= encode_utf8(query@));
        }
        return true;
    }
    let in_title = kmp_search(title.as_bytes(), q);
    if in_title.len() > 0 {
        assert(matches_at(encode_utf8(title@), encode_utf8(query@), in_title@[0] as int));
        return true;
    }
    let in_readme = boyer_moore_search(readme.as_bytes(), q);
    proof {
        if occurs(title@, query@) {
            let s = choose|s: int| matches_at(encode_utf8(title@), encode_utf8(query@), s);
            assert(in_title@.contains(s as usize));
        }
        if occurs(readme@, query@) {
            let s = choose|s: int| matches_at(encode_utf8(readme@), encode_utf8(query@), s);
            assert(in_readme@.contains(s as usize));
        }
        if in_readme.len() > 0 {
            assert(matches_at(encode_utf8(readme@), encode_utf8(query@), in_readme@[0] as int));
        }
    }
    in_readme.len() > 0
}

/// The search filter: the query occurs, ignoring case, in the title or the
/// readme.
pub fn project_matches(title: &str, readme: &str, query: &str) -> (r: bool)
    ensures
        r == project_matches_spec(lower_of(title@), lower_of(readme@), lower_of(query@)),
{
    let t = lowercase(title);
    let d = lowercase(readme);
    let q = lowercase(query);
    matches_lowered(t.as_str(), d.as_str(), q.as_str())
}

} // verus!
