//! Reads what Git prints when asked which files changed: NUL-separated status
//! records and paths, and one-line values such as a commit.
use vstd::prelude::*;

use vstd::utf8::{decode_utf8, valid_utf8};

use crate::text::{chars_of, push_str, string_from_range};

verus! {

/// Why Git's output could not be read.
#[derive(Debug, PartialEq, Eq)]
pub enum GitOutputError {
    MalformedStatus,
    PathNotUtf8,
    MissingOriginalPath,
    EmptyOriginalPath,
    EmptyPath,
    ValueNotUtf8 { description: String },
    InvalidValue { description: String },
}

pub enum GitOutputErrorView {
    MalformedStatus,
    PathNotUtf8,
    MissingOriginalPath,
    EmptyOriginalPath,
    EmptyPath,
    ValueNotUtf8 { description: Seq<char> },
    InvalidValue { description: Seq<char> },
}

/// The sentence that describes an error.
pub open spec fn git_error_message(error: GitOutputErrorView) -> Seq<char> {
    match error {
        GitOutputErrorView::MalformedStatus => "Git returned malformed status output"@,
        GitOutputErrorView::PathNotUtf8 => "Git returned a changed path that is not UTF-8"@,
        GitOutputErrorView::MissingOriginalPath => "Git omitted the original path for a rename or copy"@,
        GitOutputErrorView::EmptyOriginalPath => "Git returned an empty original path for a rename or copy"@,
        GitOutputErrorView::EmptyPath => "Git returned an empty changed path"@,
        GitOutputErrorView::ValueNotUtf8 { description } => "Git returned a "@ + description
            + " that is not UTF-8"@,
        GitOutputErrorView::InvalidValue { description } => "Git returned an invalid "@ + description,
    }
}

impl GitOutputError {
    pub open spec fn view(&self) -> GitOutputErrorView {
        match self {
            GitOutputError::MalformedStatus => GitOutputErrorView::MalformedStatus,
            GitOutputError::PathNotUtf8 => GitOutputErrorView::PathNotUtf8,
            GitOutputError::MissingOriginalPath => GitOutputErrorView::MissingOriginalPath,
            GitOutputError::EmptyOriginalPath => GitOutputErrorView::EmptyOriginalPath,
            GitOutputError::EmptyPath => GitOutputErrorView::EmptyPath,
            GitOutputError::ValueNotUtf8 { description } => GitOutputErrorView::ValueNotUtf8 {
                description: description@,
            },
            GitOutputError::InvalidValue { description } => GitOutputErrorView::InvalidValue {
                description: description@,
            },
        }
    }

    /// The error as a sentence.
    pub fn message(&self) -> (message: String)
        ensures
            message@ == git_error_message(self.view()),
    {
        let mut m = String::new();
        match self {
            GitOutputError::MalformedStatus => push_str(&mut m, "Git returned malformed status output"),
            GitOutputError::PathNotUtf8 => push_str(&mut m, "Git returned a changed path that is not UTF-8"),
            GitOutputError::MissingOriginalPath => push_str(
                &mut m,
                "Git omitted the original path for a rename or copy",
            ),
            GitOutputError::EmptyOriginalPath => push_str(
                &mut m,
                "Git returned an empty original path for a rename or copy",
            ),
            GitOutputError::EmptyPath => push_str(&mut m, "Git returned an empty changed path"),
            GitOutputError::ValueNotUtf8 { description } => {
                push_str(&mut m, "Git returned a ");
                push_str(&mut m, description.as_str());
                push_str(&mut m, " that is not UTF-8");
            },
            GitOutputError::InvalidValue { description } => {
                push_str(&mut m, "Git returned an invalid ");
                push_str(&mut m, description.as_str());
            },
        }
        proof {
            let e = Seq::<char>::empty();
            assert forall|a: Seq<char>| e + a =~= a by {}
        }
        m
    }
}

/// `std::str::from_utf8`: the text that the bytes encode, where they are valid UTF-8.
#[verifier::external_body]
fn text_of_utf8(bytes: &[u8]) -> (text: Option<String>)
    ensures
        match text {
            Some(t) => valid_utf8(bytes@) && t@ == decode_utf8(bytes@),
            None => !valid_utf8(bytes@),
        },
{
    match std::str::from_utf8(bytes) {
        Ok(text) => Some(text.to_string()),
        Err(_) => None,
    }
}

/// The records between NUL bytes, as `split` on the byte 0 gives them: one more than
/// there are NULs, a trailing NUL giving a last empty record.
pub open spec fn records_of(bytes: Seq<u8>) -> Seq<Seq<u8>>
    decreases bytes.len(),
{
    if bytes.len() == 0 {
        seq![Seq::empty()]
    } else {
        let before = records_of(bytes.drop_last());
        if bytes.last() == 0 {
            before.push(Seq::empty())
        } else {
            before.update(before.len() - 1, before.last().push(bytes.last()))
        }
    }
}

/// A status record's two-letter code names a rename or a copy, which Git follows with
/// the original path as a record of its own.
pub open spec fn renamed_or_copied(record: Seq<u8>) -> bool {
    ||| record[0] == 82u8 || record[0] == 67u8
    ||| record[1] == 82u8 || record[1] == 67u8
}

/// `path` before the paths that `rest` holds, or the error of `rest`.
pub open spec fn prepend_path(path: Seq<char>, rest: Result<Seq<Seq<char>>, GitOutputErrorView>) -> Result<
    Seq<Seq<char>>,
    GitOutputErrorView,
> {
    match rest {
        Ok(paths) => Ok(seq![path] + paths),
        Err(error) => Err(error),
    }
}

/// The paths of the status records `i..`: each record is a two-letter code, a space and
/// a UTF-8 path, a rename or copy being followed by a non-empty record of the original
/// path, which is skipped; an empty last record ends the output.
pub open spec fn status_paths(records: Seq<Seq<u8>>, i: int) -> Result<Seq<Seq<char>>, GitOutputErrorView>
    decreases records.len() - i,
{
    if i < 0 || i >= records.len() {
        Ok(Seq::empty())
    } else {
        let record = records[i];
        if record.len() == 0 && i + 1 == records.len() {
            Ok(Seq::empty())
        } else if record.len() < 4 || record[2] != 32u8 {
            Err(GitOutputErrorView::MalformedStatus)
        } else if !valid_utf8(record.skip(3)) {
            Err(GitOutputErrorView::PathNotUtf8)
        } else if !renamed_or_copied(record) {
            prepend_path(decode_utf8(record.skip(3)), status_paths(records, i + 1))
        } else if i + 1 >= records.len() {
            Err(GitOutputErrorView::MissingOriginalPath)
        } else if records[i + 1].len() == 0 {
            Err(GitOutputErrorView::EmptyOriginalPath)
        } else {
            prepend_path(decode_utf8(record.skip(3)), status_paths(records, i + 2))
        }
    }
}

/// The paths of the diff records `i..`: each a non-empty UTF-8 path; an empty last
/// record ends the output.
pub open spec fn diff_paths(records: Seq<Seq<u8>>, i: int) -> Result<Seq<Seq<char>>, GitOutputErrorView>
    decreases records.len() - i,
{
    if i < 0 || i >= records.len() {
        Ok(Seq::empty())
    } else {
        let record = records[i];
        if record.len() == 0 && i + 1 == records.len() {
            Ok(Seq::empty())
        } else if record.len() == 0 {
            Err(GitOutputErrorView::EmptyPath)
        } else if !valid_utf8(record) {
            Err(GitOutputErrorView::PathNotUtf8)
        } else {
            prepend_path(decode_utf8(record), diff_paths(records, i + 1))
        }
    }
}

/// The text without the carriage returns and line feeds at its end.
pub open spec fn trim_line_ends(s: Seq<char>) -> Seq<char>
    decreases s.len(),
{
    if s.len() > 0 && (s.last() == '\r' || s.last() == '\n') {
        trim_line_ends(s.drop_last())
    } else {
        s
    }
}

/// A one-line value that Git printed: UTF-8 text that, once the line ends at its end
/// are removed, is non-empty and holds no line end.
pub open spec fn output_line(output: Seq<u8>, description: Seq<char>) -> Result<Seq<char>, GitOutputErrorView> {
    if !valid_utf8(output) {
        Err(GitOutputErrorView::ValueNotUtf8 { description })
    } else {
        let value = trim_line_ends(decode_utf8(output));
        if value.len() == 0 || value.contains('\r') || value.contains('\n') {
            Err(GitOutputErrorView::InvalidValue { description })
        } else {
            Ok(value)
        }
    }
}

pub open spec fn records_view(records: Seq<Vec<u8>>) -> Seq<Seq<u8>> {
    records.map_values(|r: Vec<u8>| r@)
}

pub open spec fn paths_view(paths: Seq<String>) -> Seq<Seq<char>> {
    paths.map_values(|p: String| p@)
}

/// Splits the bytes at each NUL.
pub fn split_records(bytes: &[u8]) -> (records: Vec<Vec<u8>>)
    ensures
        records_view(records@) == records_of(bytes@),
{
    let mut records: Vec<Vec<u8>> = Vec::new();
    let mut current: Vec<u8> = Vec::new();
    let mut i: usize = 0;
    while i < bytes.len()
        invariant
            0 <= i <= bytes@.len(),
            records_view(records@).push(current@) == records_of(bytes@.take(i as int)),
        decreases bytes@.len() - i,
    {
        let ghost before = records_view(records@).push(current@);
        assert(bytes@.take(i + 1).drop_last() =~= bytes@.take(i as int));
        if bytes[i] == 0 {
            let done = current;
            records.push(done);
            current = Vec::new();
            assert(records_view(records@).push(current@) =~= before.push(Seq::empty()));
        } else {
            current.push(bytes[i]);
            assert(records_view(records@).push(current@) =~= before.update(
                before.len() - 1,
                before.last().push(bytes@[i as int]),
            ));
        }
        i = i + 1;
    }
    assert(bytes@.take(i as int) =~= bytes@);
    records.push(current);
    records
}

/// The path of a record from byte `from` on, where it is UTF-8.
fn path_of(record: &Vec<u8>, from: usize) -> (path: Option<String>)
    requires
        from <= record@.len(),
    ensures
        match path {
            Some(p) => valid_utf8(record@.skip(from as int)) && p@ == decode_utf8(record@.skip(from as int)),
            None => !valid_utf8(record@.skip(from as int)),
        },
{
    let mut rest: Vec<u8> = Vec::new();
    let mut k: usize = from;
    while k < record.len()
        invariant
            from <= k <= record@.len(),
            rest@ == record@.subrange(from as int, k as int),
        decreases record@.len() - k,
    {
        rest.push(record[k]);
        assert(record@.subrange(from as int, k + 1) =~= record@.subrange(from as int, k as int).push(record@[k as int]));
        k = k + 1;
    }
    assert(rest@ =~= record@.skip(from as int));
    text_of_utf8(rest.as_slice())
}

/// The paths in `git status --porcelain=v1 -z` output, original paths of renames and
/// copies left out.
pub fn parse_status(output: &[u8]) -> (paths: Result<Vec<String>, GitOutputError>)
    ensures
        match paths {
            Ok(p) => status_paths(records_of(output@), 0) == Ok::<Seq<Seq<char>>, GitOutputErrorView>(paths_view(p@)),
            Err(e) => status_paths(records_of(output@), 0) == Err::<Seq<Seq<char>>, GitOutputErrorView>(e.view()),
        },
{
    let records = split_records(output);
    let ghost all = records_of(output@);
    let mut paths: Vec<String> = Vec::new();
    let mut i: usize = 0;
    while i < records.len()
        invariant
            all == records_of(output@),
            records_view(records@) == all,
            0 <= i <= all.len(),
            status_paths(all, 0) == prepend_paths(paths_view(paths@), status_paths(all, i as int)),
        ensures
            status_paths(all, 0) == prepend_paths(paths_view(paths@), status_paths(all, i as int)),
            status_paths(all, i as int) == Ok::<Seq<Seq<char>>, GitOutputErrorView>(Seq::empty()),
        decreases all.len() - i,
    {
        let record = &records[i];
        assert(record@ == all[i as int]);
        if record.len() == 0 && i + 1 == records.len() {
            break;
        }
        if record.len() < 4 || record[2] != 32u8 {
            return Err(GitOutputError::MalformedStatus);
        }
        let path = match path_of(record, 3) {
            Some(path) => path,
            None => {
                return Err(GitOutputError::PathNotUtf8);
            },
        };
        let ghost before = paths_view(paths@);
        paths.push(path);
        assert(paths_view(paths@) =~= before.push(path@));
        let renamed = record[0] == 82u8 || record[0] == 67u8 || record[1] == 82u8 || record[1] == 67u8;
        if renamed {
            if i + 1 >= records.len() {
                return Err(GitOutputError::MissingOriginalPath);
            }
            assert(records@[i + 1]@ == all[i + 1]);
            if records[i + 1].len() == 0 {
                return Err(GitOutputError::EmptyOriginalPath);
            }
            proof {
                lemma_prepend_paths_push(before, path@, status_paths(all, i + 2));
            }
            i = i + 2;
        } else {
            proof {
                lemma_prepend_paths_push(before, path@, status_paths(all, i + 1));
            }
            i = i + 1;
        }
    }
    proof {
        lemma_prepend_paths_empty(paths_view(paths@));
    }
    Ok(paths)
}

/// The paths in `git diff --name-only -z` output.
pub fn parse_diff_paths(output: &[u8]) -> (paths: Result<Vec<String>, GitOutputError>)
    ensures
        match paths {
            Ok(p) => diff_paths(records_of(output@), 0) == Ok::<Seq<Seq<char>>, GitOutputErrorView>(paths_view(p@)),
            Err(e) => diff_paths(records_of(output@), 0) == Err::<Seq<Seq<char>>, GitOutputErrorView>(e.view()),
        },
{
    let records = split_records(output);
    let ghost all = records_of(output@);
    let mut paths: Vec<String> = Vec::new();
    let mut i: usize = 0;
    while i < records.len()
        invariant
            all == records_of(output@),
            records_view(records@) == all,
            0 <= i <= all.len(),
            diff_paths(all, 0) == prepend_paths(paths_view(paths@), diff_paths(all, i as int)),
        ensures
            diff_paths(all, 0) == prepend_paths(paths_view(paths@), diff_paths(all, i as int)),
            diff_paths(all, i as int) == Ok::<Seq<Seq<char>>, GitOutputErrorView>(Seq::empty()),
        decreases all.len() - i,
    {
        let record = &records[i];
        assert(record@ == all[i as int]);
        if record.len() == 0 && i + 1 == records.len() {
            break;
        }
        if record.len() == 0 {
            return Err(GitOutputError::EmptyPath);
        }
        let path = match path_of(record, 0) {
            Some(path) => path,
            None => {
                assert(record@.skip(0) =~= record@);
                return Err(GitOutputError::PathNotUtf8);
            },
        };
        assert(record@.skip(0) =~= record@);
        let ghost before = paths_view(paths@);
        paths.push(path);
        assert(paths_view(paths@) =~= before.push(path@));
        proof {
            lemma_prepend_paths_push(before, path@, diff_paths(all, i + 1));
        }
        i = i + 1;
    }
    proof {
        lemma_prepend_paths_empty(paths_view(paths@));
    }
    Ok(paths)
}

/// The paths found so far before what the rest of the output gives.
pub open spec fn prepend_paths(found: Seq<Seq<char>>, rest: Result<Seq<Seq<char>>, GitOutputErrorView>) -> Result<
    Seq<Seq<char>>,
    GitOutputErrorView,
> {
    match rest {
        Ok(paths) => Ok(found + paths),
        Err(error) => Err(error),
    }
}

proof fn lemma_prepend_paths_push(
    found: Seq<Seq<char>>,
    path: Seq<char>,
    rest: Result<Seq<Seq<char>>, GitOutputErrorView>,
)
    ensures
        prepend_paths(found, prepend_path(path, rest)) == prepend_paths(found.push(path), rest),
{
    if let Ok(paths) = rest {
        assert(found + (seq![path] + paths) =~= found.push(path) + paths);
    }
}

proof fn lemma_prepend_paths_empty(found: Seq<Seq<char>>)
    ensures
        prepend_paths(found, Ok(Seq::empty())) == Ok::<Seq<Seq<char>>, GitOutputErrorView>(found),
{
    assert(found + Seq::<Seq<char>>::empty() =~= found);
}

/// A one-line value that Git printed, such as a commit: its UTF-8 text without the line
/// ends at its end, which must leave it non-empty and on one line.
pub fn parse_output_line(output: &[u8], description: &str) -> (value: Result<String, GitOutputError>)
    ensures
        match value {
            Ok(v) => output_line(output@, description@) == Ok::<Seq<char>, GitOutputErrorView>(v@),
            Err(e) => output_line(output@, description@) == Err::<Seq<char>, GitOutputErrorView>(e.view()),
        },
{
    let text = match text_of_utf8(output) {
        Some(text) => text,
        None => {
            let mut owned = String::new();
            push_str(&mut owned, description);
            return Err(GitOutputError::ValueNotUtf8 { description: owned });
        },
    };
    let chars = chars_of(text.as_str());
    let mut end: usize = chars.len();
    assert(chars@.take(end as int) =~= chars@);
    while end > 0 && (chars[end - 1] == '\r' || chars[end - 1] == '\n')
        invariant
            0 <= end <= chars@.len(),
            valid_utf8(output@),
            chars@ == decode_utf8(output@),
            trim_line_ends(chars@) == trim_line_ends(chars@.take(end as int)),
        decreases end,
    {
        assert(chars@.take(end as int).drop_last() =~= chars@.take(end - 1));
        end = end - 1;
    }
    assert(trim_line_ends(chars@.take(end as int)) == chars@.take(end as int));
    let ghost value = chars@.take(end as int);
    let mut k: usize = 0;
    while k < end
        invariant
            0 <= k <= end <= chars@.len(),
            value == chars@.take(end as int),
            valid_utf8(output@),
            chars@ == decode_utf8(output@),
            trim_line_ends(chars@) == value,
            forall|j: int| 0 <= j < k ==> value[j] != '\r' && value[j] != '\n',
        decreases end - k,
    {
        if chars[k] == '\r' || chars[k] == '\n' {
            assert(value[k as int] == chars@[k as int]);
            assert(value.contains(chars@[k as int]));
            let mut owned = String::new();
            push_str(&mut owned, description);
            return Err(GitOutputError::InvalidValue { description: owned });
        }
        k = k + 1;
    }
    if end == 0 {
        let mut owned = String::new();
        push_str(&mut owned, description);
        return Err(GitOutputError::InvalidValue { description: owned });
    }
    Ok(string_from_range(&chars, 0, end))
}

} // verus!
