//! Documents, the corpus configuration, and the plain-text document format.
use vstd::prelude::*;
use crate::tokenizer::{first_char, lower_of, lowercase};

verus! {

/// A document's text and where it came from.
#[derive(PartialEq, Debug)]
pub struct Document {
    content: String,
    path: String,
}

impl Document {
    /// The text.
    pub closed spec fn content(&self) -> Seq<char> {
        self.content@
    }

    /// Where the text came from.
    pub closed spec fn path(&self) -> Seq<char> {
        self.path@
    }

    /// A document with the given text and origin.
    pub fn new(content: String, path: String) -> (r: Self)
        ensures
            r.content() == content@,
            r.path() == path@,
    {
        Document { content, path }
    }

    /// The text.
    pub fn get_content(&self) -> (r: &str)
        ensures
            r@ == self.content(),
    {
        self.content.as_str()
    }

    /// Where the text came from.
    pub fn get_path(&self) -> (r: &str)
        ensures
            r@ == self.path(),
    {
        self.path.as_str()
    }
}

/// How the files of a corpus are read: their format and, for JSON, the fields that
/// make up a document's text.
#[derive(PartialEq, Debug)]
pub struct Cfg {
    file_type: String,
    fields: Vec<String>,
}

impl Cfg {
    /// The file format's name.
    pub closed spec fn file_type(&self) -> Seq<char> {
        self.file_type@
    }

    /// The fields that make up a document's text.
    pub closed spec fn fields(&self) -> Seq<String> {
        self.fields@
    }

    /// Plain text files, no fields.
    pub fn new() -> (r: Self)
        ensures
            r.file_type() == "text"@,
            r.fields().len() == 0,
    {
        Cfg { file_type: "text".to_string(), fields: Vec::new() }
    }

    /// A configuration with the given format and fields.
    pub fn from_fields(file_type: String, fields: Vec<String>) -> (r: Self)
        ensures
            r.file_type() == file_type@,
            r.fields() == fields@,
    {
        Cfg { file_type, fields }
    }

    /// Whether the format is JSON, in any letter case.
    pub fn is_json(&self) -> (r: bool)
        ensures
            r == (lower_of(self.file_type()) == "json"@),
    {
        let lowered = lowercase(self.file_type.as_str());
        let json = "json".to_string();
        lowered == json
    }

    /// The file format's name.
    pub fn get_file_type(&self) -> (r: &str)
        ensures
            r@ == self.file_type(),
    {
        self.file_type.as_str()
    }

    /// The fields that make up a document's text.
    pub fn get_fields(&self) -> (r: &Vec<String>)
        ensures
            r@ == self.fields(),
    {
        &self.fields
    }
}

/// A plain-text file is one document: its whole text, named by its path.
pub fn parse_text(path: &str, text: &str, _cfg: &Cfg) -> (r: Vec<Document>)
    ensures
        r@.len() == 1,
        r@[0].content() == text@,
        r@[0].path() == path@,
{
    let mut docs: Vec<Document> = Vec::new();
    docs.push(Document::new(text.to_owned(), path.to_owned()));
    docs
}

/// Whether a file name marks a hidden file, one that starts with a dot.
pub fn ignore(file_name: &str) -> (r: bool)
    ensures
        r == (file_name@.len() > 0 && file_name@[0] == '.'),
{
    match first_char(file_name) {
        Some(c) => c == '.',
        None => false,
    }
}

} // verus!
