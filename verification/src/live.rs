//! The live file — what the application or the user has the file as right
//! now. JSON and TOML files are both held as a JSON value tree; the format
//! decides how the file is read and written back.
use vstd::prelude::*;

use crate::error::Error;
use crate::json::{Json, JsonValue};
use crate::syntax::{json_reading, json_rendering, read_json, read_toml, render_json, render_toml, toml_reading, toml_rendering};

verus! {

/// How a live file is stored on disk.
#[derive(Clone, Copy, Debug, PartialEq, Eq, Structural)]
pub enum LiveFormat {
    Json,
    Toml,
}

/// Whether `text` occurs in `s`.
pub open spec fn contains_text(s: Seq<char>, text: Seq<char>) -> bool {
    exists|i: int| 0 <= i <= s.len() - text.len() && #[trigger] s.subrange(i, i + text.len()) == text
}

/// What reading `text` in `format` gives: the document, or the parser's
/// message.
pub open spec fn format_reading(format: LiveFormat, text: Seq<char>) -> Result<JsonValue, Seq<char>> {
    match format {
        LiveFormat::Json => json_reading(text),
        LiveFormat::Toml => toml_reading(text),
    }
}

/// What rendering `data` in `format` gives: the text, or the printer's
/// message.
pub open spec fn format_rendering(format: LiveFormat, data: JsonValue) -> Result<Seq<char>, Seq<char>> {
    match format {
        LiveFormat::Json => json_rendering(data),
        LiveFormat::Toml => toml_rendering(data),
    }
}

/// Whether `r` is what writing `data` in `format` to `destination_path`
/// renders: the text and a closing newline, or the printer's message in a
/// `LiveWrite` error.
pub open spec fn live_rendering(
    format: LiveFormat,
    data: JsonValue,
    destination_path: Seq<char>,
    r: Result<String, Error>,
) -> bool {
    let what = match format {
        LiveFormat::Json => "serialize JSON: "@,
        LiveFormat::Toml => "serialize TOML: "@,
    };
    match format_rendering(format, data) {
        Ok(text) => r matches Ok(t) && t@ == text + "\n"@,
        Err(message) => r matches Err(Error::LiveWrite { destination_path: p, reason: q }) && p@
            == destination_path && q@ == what + message,
    }
}

/// The part of `path` after its last `/` (all of it when it has none).
pub open spec fn last_segment(path: Seq<char>) -> Seq<char>
    decreases path.len(),
{
    if path.len() == 0 || path.last() == '/' {
        Seq::empty()
    } else {
        last_segment(path.drop_last()).push(path.last())
    }
}

/// Whether `path` ends in a file name that every platform reads alike: it
/// holds no backslash and no `:` and does not begin with `//` (so it has no
/// drive, share or device prefix anywhere), and the part after its last `/`
/// is a name, not empty, `.` or `..`.
pub open spec fn plain_file_name(path: Seq<char>) -> bool {
    &&& !path.contains('\\')
    &&& !path.contains(':')
    &&& !(path.len() >= 2 && path[0] == '/' && path[1] == '/')
    &&& last_segment(path).len() > 0
    &&& last_segment(path) != "."@
    &&& last_segment(path) != ".."@
}

/// The position of the last `.` in `name`.
pub open spec fn last_dot(name: Seq<char>) -> Option<int>
    decreases name.len(),
{
    if name.len() == 0 {
        None
    } else if name.last() == '.' {
        Some(name.len() - 1)
    } else {
        last_dot(name.drop_last())
    }
}

/// The extension of a file name: the part after its last `.`; none when it
/// has no `.`, or its only `.` begins it.
pub open spec fn name_extension(name: Seq<char>) -> Option<Seq<char>> {
    match last_dot(name) {
        Some(i) => if i == 0 {
            None
        } else {
            Some(name.subrange(i + 1, name.len() as int))
        },
        None => None,
    }
}

/// The format a path with a plain file name calls for: TOML when the name's
/// extension is `toml`, JSON otherwise.
pub open spec fn named_format(path: Seq<char>) -> LiveFormat {
    if name_extension(last_segment(path)) == Some("toml"@) {
        LiveFormat::Toml
    } else {
        LiveFormat::Json
    }
}

/// Whether `format` is what the file at `path` is read and written in: the
/// format its file name calls for where that name is plain, and in any case
/// TOML only for a path that holds `.toml`.
pub open spec fn format_called_for(path: Seq<char>, format: LiveFormat) -> bool {
    &&& format == LiveFormat::Toml ==> contains_text(path, ".toml"@)
    &&& plain_file_name(path) ==> format == named_format(path)
}

/// The extension of a path: the part of its file name after the last `.`.
///
/// Calls `std::path::Path::extension`, whose documentation gives the
/// extension of the file name (the path's final component) as: none without
/// a `.`, none when the name begins with its only `.`, else the part after
/// the final `.`. Which components a path has depends on the platform's
/// rules (separators, prefixes, a trailing separator), so the contract says
/// what the extension is only for a path with a plain file name, whose final
/// component every platform reads alike; of any other path it states only
/// that the extension is text of the path that follows a `.` and holds
/// neither a `/` nor a `.`.
#[verifier::external_body]
fn path_extension(path: &str) -> (r: Option<String>)
    ensures
        r matches Some(e) ==> contains_text(path@, seq!['.'] + e@) && !e@.contains('/') && !e@.contains('.'),
        plain_file_name(path@) ==> match r {
            Some(e) => name_extension(last_segment(path@)) == Some(e@),
            None => name_extension(last_segment(path@)) is None,
        },
{
    match std::path::Path::new(path).extension() {
        Some(extension) => match extension.to_str() {
            Some(text) => Some(text.to_owned()),
            None => None,
        },
        None => None,
    }
}

impl LiveFormat {
    /// The format a file extension calls for: TOML for `toml`, JSON
    /// otherwise.
    pub fn from_extension(extension: Option<&str>) -> (r: LiveFormat)
        ensures
            r == (if extension matches Some(e) && e@ == "toml"@ {
                LiveFormat::Toml
            } else {
                LiveFormat::Json
            }),
    {
        match extension {
            Some(e) => {
                if e.to_owned() == "toml".to_owned() {
                    LiveFormat::Toml
                } else {
                    LiveFormat::Json
                }
            },
            None => LiveFormat::Json,
        }
    }

    /// The format of the file at `path`, by its extension: TOML for `toml`,
    /// JSON otherwise.
    pub fn from_path(path: &str) -> (r: LiveFormat)
        ensures
            r == LiveFormat::Toml ==> contains_text(path@, ".toml"@),
            plain_file_name(path@) ==> r == named_format(path@),
    {
        let extension = path_extension(path);
        let format = match &extension {
            Some(e) => LiveFormat::from_extension(Some(e.as_str())),
            None => LiveFormat::from_extension(None),
        };
        proof {
            reveal_strlit(".toml");
            reveal_strlit("toml");
            if format == LiveFormat::Toml {
                let e = extension->Some_0;
                assert(seq!['.'] + e@ =~= ".toml"@);
            }
        }
        format
    }

    /// Read `text` in this format. `source_path` names the file in the
    /// error.
    pub fn parse(self, text: &str, source_path: &str) -> (r: Result<Json, Error>)
        ensures
            match format_reading(self, text@) {
                Ok(v) => r matches Ok(doc) && doc@ == v,
                Err(message) => r matches Err(Error::LiveParse { source_path: p, reason: q }) && p@
                    == source_path@ && q@ == message,
            },
    {
        let reading = match self {
            LiveFormat::Json => read_json(text),
            LiveFormat::Toml => read_toml(text),
        };
        match reading {
            Ok(doc) => Ok(doc),
            Err(message) => Err(Error::LiveParse { source_path: source_path.to_owned(), reason: message }),
        }
    }

    /// Render `data` in this format, with a closing newline.
    /// `destination_path` names the file in the error.
    pub fn render(self, data: &Json, destination_path: &str) -> (r: Result<String, Error>)
        ensures
            live_rendering(self, data@, destination_path@, r),
    {
        let (rendering, what) = match self {
            LiveFormat::Json => (render_json(data), "serialize JSON: "),
            LiveFormat::Toml => (render_toml(data), "serialize TOML: "),
        };
        match rendering {
            Ok(text) => Ok(text.concat("\n")),
            Err(message) => Err(
                Error::LiveWrite {
                    destination_path: destination_path.to_owned(),
                    reason: what.to_owned().concat(message.as_str()),
                },
            ),
        }
    }
}

/// What a live file holds: its data, its format and its path.
pub struct LiveView {
    pub data: JsonValue,
    pub format: LiveFormat,
    pub source_path: Seq<char>,
}

#[derive(Debug)]
pub struct Live {
    data: Json,
    format: LiveFormat,
    source_path: String,
}

impl View for Live {
    type V = LiveView;

    closed spec fn view(&self) -> LiveView {
        LiveView { data: self.data@, format: self.format, source_path: self.source_path@ }
    }
}

impl Live {
    /// An empty live file (root = empty object) at `source_path`: used for
    /// first-run adoption, when the application has not created its file.
    pub fn empty(source_path: String) -> (r: Live)
        ensures
            r@.data == JsonValue::Object(Map::empty()),
            r@.source_path == source_path@,
            format_called_for(source_path@, r@.format),
    {
        let format = LiveFormat::from_path(source_path.as_str());
        Live { data: Json::empty_object(), format, source_path }
    }

    /// Read a live file's text, in the format its path calls for.
    pub fn from_text(text: &str, source_path: String) -> (r: Result<Live, Error>)
        ensures
            exists|f: LiveFormat|
                #![trigger format_reading(f, text@)]
                format_called_for(source_path@, f) && match format_reading(
                    f,
                    text@,
                ) {
                    Ok(v) => r matches Ok(live) && live@ == LiveView {
                        data: v,
                        format: f,
                        source_path: source_path@,
                    },
                    Err(message) => r matches Err(Error::LiveParse { source_path: p, reason: q })
                        && p@ == source_path@ && q@ == message,
                },
    {
        let format = LiveFormat::from_path(source_path.as_str());
        let data = format.parse(text, source_path.as_str());
        match data {
            Ok(data) => Ok(Live { data, format, source_path }),
            Err(e) => Err(e),
        }
    }

    /// Read JSON text that came from no file.
    pub fn from_text_for_test(text: &str) -> (r: Result<Live, Error>)
        ensures
            match json_reading(text@) {
                Ok(v) => r matches Ok(live) && live@ == LiveView {
                    data: v,
                    format: LiveFormat::Json,
                    source_path: "<test>"@,
                },
                Err(message) => r matches Err(Error::LiveParse { source_path: p, reason: q }) && p@
                    == "<test>"@ && q@ == message,
            },
    {
        let source_path = "<test>".to_owned();
        let format = LiveFormat::Json;
        match format.parse(text, source_path.as_str()) {
            Ok(data) => Ok(Live { data, format, source_path }),
            Err(e) => Err(e),
        }
    }

    /// Read text as the file at `source_path` would be read.
    pub fn from_text_for_test_at_path(text: &str, source_path: String) -> (r: Result<Live, Error>)
        ensures
            exists|f: LiveFormat|
                #![trigger format_reading(f, text@)]
                format_called_for(source_path@, f) && match format_reading(
                    f,
                    text@,
                ) {
                    Ok(v) => r matches Ok(live) && live@ == LiveView {
                        data: v,
                        format: f,
                        source_path: source_path@,
                    },
                    Err(message) => r matches Err(Error::LiveParse { source_path: p, reason: q })
                        && p@ == source_path@ && q@ == message,
                },
    {
        Live::from_text(text, source_path)
    }

    /// The text to write to `destination_path`: the data in this file's own
    /// format when that is its own path, else in the format the path calls
    /// for.
    pub fn render(&self, destination_path: &str) -> (r: Result<String, Error>)
        ensures
            exists|f: LiveFormat|
                #![trigger live_rendering(f, self@.data, destination_path@, r)]
                {
                    &&& destination_path@ == self@.source_path ==> f == self@.format
                    &&& destination_path@ != self@.source_path ==> format_called_for(
                        destination_path@,
                        f,
                    )
                    &&& format_called_for(self@.source_path, self@.format) ==> format_called_for(
                        destination_path@,
                        f,
                    )
                    &&& live_rendering(f, self@.data, destination_path@, r)
                },
    {
        let format = if destination_path.to_owned() == self.source_path {
            self.format
        } else {
            LiveFormat::from_path(destination_path)
        };
        format.render(&self.data, destination_path)
    }

    pub fn data(&self) -> (r: &Json)
        ensures
            r@ == self@.data,
    {
        &self.data
    }

    /// The data tree, to change in place.
    pub fn data_mut(&mut self) -> (r: &mut Json)
        ensures
            (*r)@ == old(self)@.data,
            final(self)@ == (LiveView { data: final(r)@, ..old(self)@ }),
    {
        &mut self.data
    }

    /// Replace the data tree wholesale.
    pub fn set_data(&mut self, data: Json)
        ensures
            final(self)@ == (LiveView { data: data@, ..old(self)@ }),
    {
        self.data = data;
    }

    pub fn source_path(&self) -> (r: &str)
        ensures
            r@ == self@.source_path,
    {
        self.source_path.as_str()
    }

    pub fn format(&self) -> (r: LiveFormat)
        ensures
            r == self@.format,
    {
        self.format
    }
}

} // verus!
