//! What the user typed, and the part of it that names a file.

use vstd::prelude::*;
#[allow(unused_imports)]
use vstd::string::*;
#[allow(unused_imports)]
use vstd::utf8::*;

verus! {

/// Something that names a file, and the row and column asked for in it, counted
/// from one.
#[derive(Clone, Debug)]
pub struct PathLikeWithPosition<P> {
    pub path_like: P,
    pub row: Option<u32>,
    pub column: Option<u32>,
}

impl<P: View> View for PathLikeWithPosition<P> {
    type V = PathLikeWithPosition<P::V>;

    open spec fn view(&self) -> PathLikeWithPosition<P::V> {
        PathLikeWithPosition { path_like: self.path_like@, row: self.row, column: self.column }
    }
}

/// A query for a file.
#[derive(Debug)]
pub struct FileSearchQuery {
    /// The text as the user typed it.
    pub raw_query: String,
    /// The byte of the text where the part that names the file ends, where that is
    /// not the whole text.
    pub file_query_end: Option<usize>,
}

/// What a query is.
pub struct QueryView {
    pub raw_query: Seq<char>,
    pub file_query_end: Option<usize>,
}

impl View for FileSearchQuery {
    type V = QueryView;

    open spec fn view(&self) -> QueryView {
        QueryView { raw_query: self.raw_query@, file_query_end: self.file_query_end }
    }
}

impl QueryView {
    /// The part that names the file ends between two characters of the text.
    pub open spec fn wf(self) -> bool {
        self.file_query_end matches Some(end) ==> is_char_boundary(
            encode_utf8(self.raw_query),
            end as int,
        )
    }

    /// The part of the text that names the file.
    pub open spec fn path_query(self) -> Seq<char> {
        match self.file_query_end {
            Some(end) => decode_utf8(encode_utf8(self.raw_query).take(end as int)),
            None => self.raw_query,
        }
    }
}

impl Clone for FileSearchQuery {
    fn clone(&self) -> (copy: Self)
        ensures
            copy@ == self@,
    {
        FileSearchQuery { raw_query: self.raw_query.clone(), file_query_end: self.file_query_end }
    }
}

/// The query with the text `raw` in which `path_like` was found to name the file.
pub open spec fn query_of(raw: Seq<char>, path_like: Seq<char>) -> QueryView {
    QueryView {
        raw_query: raw,
        file_query_end: if path_like == raw {
            None
        } else {
            Some(encode_utf8(path_like).len() as usize)
        },
    }
}

/// The bytes of two texts in a row are those of the one, then those of the other,
/// and no character straddles the seam.
proof fn lemma_encode_concat(a: Seq<char>, b: Seq<char>)
    ensures
        encode_utf8(a + b) == encode_utf8(a) + encode_utf8(b),
        is_char_boundary(encode_utf8(a + b), encode_utf8(a).len() as int),
    decreases a.len(),
{
    let both = a + b;
    encode_utf8_valid_utf8(both);
    if a.len() == 0 {
        assert(both =~= b);
        assert(encode_utf8(both) =~= encode_utf8(a) + encode_utf8(b));
    } else {
        assert(both.drop_first() =~= a.drop_first() + b);
        lemma_encode_concat(a.drop_first(), b);
        let first = encode_scalar(a[0] as u32);
        assert(encode_utf8(both) =~= first + (encode_utf8(a.drop_first()) + encode_utf8(b)));
        assert(encode_utf8(both) =~= encode_utf8(a) + encode_utf8(b));
        encode_utf8_first_scalar(both);
        assert(pop_first_scalar(encode_utf8(both)) =~= encode_utf8(both.drop_first()));
    }
}

/// Where the text starts with what was found to name the file, that is the part of
/// the query that names the file.
pub proof fn law_path_query_is_path_like(raw: Seq<char>, path_like: Seq<char>)
    requires
        path_like.is_prefix_of(raw),
        encode_utf8(path_like).len() <= usize::MAX,
    ensures
        query_of(raw, path_like).wf(),
        query_of(raw, path_like).path_query() == path_like,
{
    if path_like != raw {
        let rest = raw.skip(path_like.len() as int);
        assert(raw =~= path_like + rest);
        lemma_encode_concat(path_like, rest);
        assert(encode_utf8(raw).take(encode_utf8(path_like).len() as int) =~= encode_utf8(
            path_like,
        ));
        encode_utf8_decode_utf8(path_like);
    }
}

/// A query keeps the text as it was typed. It notes where the part that names the
/// file ends, in bytes, unless that part is the whole text.
pub proof fn law_query_keeps_text(raw: Seq<char>, path_like: Seq<char>)
    requires
        encode_utf8(path_like).len() <= usize::MAX,
    ensures
        query_of(raw, path_like).raw_query == raw,
        query_of(raw, path_like).file_query_end is None <==> path_like == raw,
        query_of(raw, path_like).file_query_end matches Some(end) ==> end == encode_utf8(
            path_like,
        ).len(),
{
}

/// The part of a query that names the file is the start of the text, up to the byte
/// noted; without one it is the whole text.
pub proof fn law_path_query_is_start_of_text(query: QueryView)
    requires
        query.file_query_end matches Some(end) ==> is_char_boundary(
            encode_utf8(query.raw_query),
            end as int,
        ),
    ensures
        query.wf(),
        query.path_query().is_prefix_of(query.raw_query),
        query.file_query_end matches Some(end) ==> encode_utf8(query.path_query()) == encode_utf8(
            query.raw_query,
        ).subrange(0, end as int),
        query.file_query_end is None ==> query.path_query() == query.raw_query,
{
    let raw = query.raw_query;
    match query.file_query_end {
        Some(end) => {
            let bytes = encode_utf8(raw);
            let cut = end as int;
            encode_utf8_valid_utf8(raw);
            valid_utf8_split(bytes, cut);
            lemma_boundary_within(bytes, cut);
            assert(bytes.take(cut) =~= bytes.subrange(0, cut));
            decode_utf8_encode_utf8(bytes.subrange(0, cut));
            decode_utf8_split(bytes, cut);
            encode_utf8_decode_utf8(raw);
            let path = query.path_query();
            assert(raw.subrange(0, path.len() as int) =~= path);
        },
        None => {
            assert(raw.subrange(0, raw.len() as int) =~= raw);
        },
    }
}

/// A boundary lies within the bytes.
proof fn lemma_boundary_within(bytes: Seq<u8>, index: int)
    requires
        valid_utf8(bytes),
        is_char_boundary(bytes, index),
    ensures
        0 <= index <= bytes.len(),
    decreases bytes.len(),
{
}

/// A query is seen with its text and what names the file in it, and so is one with a
/// place in the file.
pub proof fn law_query_view(query: PathLikeWithPosition<FileSearchQuery>)
    ensures
        query@.path_like.raw_query == query.path_like.raw_query@,
        query@.path_like.file_query_end == query.path_like.file_query_end,
        query@.row == query.row,
        query@.column == query.column,
{
}

impl FileSearchQuery {
    /// The query with the text `raw_query` in which `path_like_str` was found to
    /// name the file.
    pub fn of_path_like(raw_query: String, path_like_str: &str) -> (query: FileSearchQuery)
        ensures
            query@ == query_of(raw_query@, path_like_str@),
            encode_utf8(path_like_str@).len() <= usize::MAX,
    {
        let path_like: String = path_like_str.to_owned();
        let len: usize = path_like_str.as_bytes().len();
        let file_query_end: Option<usize> = if path_like == raw_query {
            None
        } else {
            Some(len)
        };
        FileSearchQuery { raw_query, file_query_end }
    }

    /// The part of the text that names the file.
    pub fn path_query(&self) -> (path: &str)
        requires
            self@.wf(),
        ensures
            path@ == self@.path_query(),
    {
        match self.file_query_end {
            Some(end) => {
                let path: &str = self.raw_query.as_str().split_at(end).0;
                proof {
                    let bytes = encode_utf8(self.raw_query@);
                    assert(bytes.take(end as int) =~= bytes.subrange(0, end as int));
                    encode_utf8_decode_utf8(path@);
                }
                path
            },
            None => self.raw_query.as_str(),
        }
    }

    /// Tells whether the part that names the file ends between two characters of the
    /// text.
    pub fn is_well_formed(&self) -> (well_formed: bool)
        ensures
            well_formed == self@.wf(),
    {
        match self.file_query_end {
            Some(end) => self.raw_query.as_str().is_char_boundary(end),
            None => true,
        }
    }
}

} // verus!
