//! Local review notes and the comments that agents provide.
use vstd::prelude::*;
use crate::text::{chars_of, string_from_chars};

verus! {

/// A review comment anchored to a file and to old and/or new line numbers.
pub struct ReviewComment {
    pub id: String,
    pub file_path: String,
    pub old_line: Option<u32>,
    pub new_line: Option<u32>,
    pub hunk: Option<u32>,
    pub summary: String,
    pub rationale: Option<String>,
    pub author: Option<String>,
    pub source: String,
}

/// The local comments of a project.
pub struct CommentStore {
    pub version: u32,
    pub comments: Vec<ReviewComment>,
}

impl Default for CommentStore {
    fn default() -> (r: CommentStore)
        ensures
            r.version == 1,
            r.comments@.len() == 0,
    {
        CommentStore { version: 1, comments: Vec::new() }
    }
}

pub open spec fn user_source() -> Seq<char> {
    seq!['u', 's', 'e', 'r']
}

/// Source recorded for comments written in the application.
pub fn local_source() -> (r: String)
    ensures
        r@ == user_source(),
{
    let v = vec!['u', 's', 'e', 'r'];
    assert(v@ =~= user_source());
    string_from_chars(v.as_slice())
}

/// Removes the selected local comment; a selection past the local comments
/// (an agent comment) removes nothing.
pub fn remove_local_comment(store: &mut CommentStore, selected: usize) -> (r: Option<ReviewComment>)
    ensures
        final(store).version == old(store).version,
        selected < old(store).comments@.len() ==> r == Some(old(store).comments@[selected as int])
            && final(store).comments@ == old(store).comments@.remove(selected as int),
        selected >= old(store).comments@.len() ==> r is None && final(store).comments@
            == old(store).comments@,
{
    if selected < store.comments.len() {
        Some(store.comments.remove(selected))
    } else {
        None
    }
}

/// A lowercase hexadecimal digit.
pub open spec fn is_hex_digit(c: char) -> bool {
    ('0' <= c && c <= '9') || ('a' <= c && c <= 'f')
}

/// The hyphenated lowercase text of a random (version 4, RFC 4122 variant)
/// UUID: 36 characters, `-` at positions 8, 13, 18 and 23, lowercase hex
/// digits elsewhere, `4` at position 14 and one of `8 9 a b` at position 19.
pub open spec fn is_v4_uuid_text(u: Seq<char>) -> bool {
    &&& u.len() == 36
    &&& forall|i: int| 0 <= i < 36 ==> if i == 8 || i == 13 || i == 18 || i == 23 {
        #[trigger] u[i] == '-'
    } else {
        is_hex_digit(u[i])
    }
    &&& u[14] == '4'
    &&& (u[19] == '8' || u[19] == '9' || u[19] == 'a' || u[19] == 'b')
}

/// Calls `Uuid::new_v4` of `uuid` and formats it with `Display`, which writes
/// the hyphenated lowercase form. Which UUID comes out is random; its
/// version digit is 4 and its variant is RFC 4122.
#[verifier::external_body]
fn random_uuid() -> (r: String)
    ensures
        is_v4_uuid_text(r@),
{
    uuid::Uuid::new_v4().to_string()
}

pub open spec fn id_prefix() -> Seq<char> {
    seq!['l', 'u', 'm', 'i', 'n', 'a', 't', 't', 'i', ':']
}

/// A fresh comment id: `luminatti:` followed by a random UUID.
pub fn new_id() -> (r: String)
    ensures
        r@.len() == 46,
        r@.take(10) == id_prefix(),
        is_v4_uuid_text(r@.skip(10)),
{
    let mut v = vec!['l', 'u', 'm', 'i', 'n', 'a', 't', 't', 'i', ':'];
    assert(v@ =~= id_prefix());
    let u = chars_of(random_uuid().as_str());
    let mut i: usize = 0;
    while i < u.len()
        invariant
            i <= u@.len(),
            is_v4_uuid_text(u@),
            v@ == id_prefix() + u@.take(i as int),
        decreases u@.len() - i,
    {
        v.push(u[i]);
        assert(u@.take(i + 1) =~= u@.take(i as int).push(u@[i as int]));
        assert(v@ =~= id_prefix() + u@.take(i + 1));
        i = i + 1;
    }
    assert(u@.take(36) =~= u@);
    assert(v@.skip(10) =~= u@);
    assert(v@.take(10) =~= id_prefix());
    string_from_chars(v.as_slice())
}

/// Why a comment cannot be added.
#[derive(Clone, Copy, Debug, PartialEq, Eq, Structural)]
pub enum CommentError {
    /// No changed file is selected.
    NoFile,
    /// The selection has no line to anchor to.
    NoLine,
}

/// Lines a new comment is anchored to, from the selected row's lines: the
/// old line is dropped in the final view, which shows only new lines.
pub open spec fn anchor_lines(row: Option<(Option<u32>, Option<u32>)>, final_view: bool) -> (Option<u32>, Option<u32>) {
    match row {
        Some((old, new)) => (if final_view { None } else { old }, new),
        None => (None, None),
    }
}

/// A new local comment on the selected row of the active file.
pub fn comment_for_selection(
    path: Option<&str>,
    row: Option<(Option<u32>, Option<u32>)>,
    final_view: bool,
    summary: String,
) -> (r: Result<ReviewComment, CommentError>)
    ensures
        path is None ==> r == Err::<ReviewComment, CommentError>(CommentError::NoFile),
        path is Some && anchor_lines(row, final_view) == (None::<u32>, None::<u32>) ==> r == Err::<
            ReviewComment,
            CommentError,
        >(CommentError::NoLine),
        r matches Ok(c) ==> {
            &&& path matches Some(p) && c.file_path@ == p@
            &&& (c.old_line, c.new_line) == anchor_lines(row, final_view)
            &&& c.summary@ == summary@
            &&& c.source@ == user_source()
            &&& c.hunk is None && c.rationale is None && c.author is None
            &&& c.id@.take(10) == id_prefix()
        },
        path is Some && anchor_lines(row, final_view) != (None::<u32>, None::<u32>) ==> r is Ok,
{
    let p = match path {
        Some(p) => p,
        None => return Err(CommentError::NoFile),
    };
    let (old_line, new_line) = match row {
        Some((old, new)) => (if final_view { None } else { old }, new),
        None => (None, None),
    };
    if old_line.is_none() && new_line.is_none() {
        return Err(CommentError::NoLine);
    }
    Ok(ReviewComment {
        id: new_id(),
        file_path: string_from_chars(chars_of(p).as_slice()),
        old_line,
        new_line,
        hunk: None,
        summary,
        rationale: None,
        author: None,
        source: local_source(),
    })
}

} // verus!
