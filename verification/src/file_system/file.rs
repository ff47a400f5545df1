//! Files: leaf entries of the tree, together with the error type shared by
//! every file-system operation and the clock helpers used when new
//! directories are stamped.

use vstd::prelude::*;

use crate::file_system::text::{eq_str, last_index_char, last_index_of, lemma_last_index_of};

verus! {

/// Error type shared by all file-system operations.
#[derive(Debug)]
pub enum CustomError {
    FileOrDirNameNotFound,
    DirOrFileAlreadyExists,
    FileNotFound,
    InvalidQuery,
    IoError(std::io::Error),
    SystemTimeError(std::time::SystemTimeError),
}

/// Declares `std::io::Error` to the verifier, so that import failures met
/// outside the library can travel inside a [`CustomError`]. The value is
/// opaque here; nothing is assumed of it.
#[verifier::external_type_specification]
#[verifier::external_body]
pub struct ExIoError(std::io::Error);

/// Declares `std::time::SystemTime` to the verifier: an opaque clock
/// reading; nothing is assumed of it.
#[verifier::external_type_specification]
#[verifier::external_body]
pub struct ExSystemTime(std::time::SystemTime);

/// Declares `std::time::SystemTimeError` to the verifier: the opaque error
/// a clock comparison can produce; nothing is assumed of it.
#[verifier::external_type_specification]
#[verifier::external_body]
pub struct ExSystemTimeError(std::time::SystemTimeError);

/// Relies on `std::time::SystemTime::now`: a reading of the system clock.
/// Nothing is assumed about the value returned.
pub assume_specification[ std::time::SystemTime::now ]() -> std::time::SystemTime;

/// Relies on `std::time::SystemTime::duration_since` and
/// `std::time::Duration::as_secs`: whole seconds between the Unix epoch and
/// `time`, or the platform's error when `time` precedes the epoch. Nothing is
/// assumed about the value returned.
#[verifier::external_body]
pub fn timestamp_to_u64(time: std::time::SystemTime) -> Result<u64, std::time::SystemTimeError> {
    Ok(time.duration_since(std::time::UNIX_EPOCH)?.as_secs())
}

/// Classification of a file's content, derived once from its name when the
/// file enters the tree and copied verbatim afterwards.
#[derive(Clone, Copy, Debug, PartialEq, Eq, Structural)]
pub enum FileType {
    Text,
    Binary,
}

impl Default for FileType {
    fn default() -> (t: Self)
        ensures
            t == FileType::Text,
    {
        FileType::Text
    }
}

/// A leaf entry: full path name, content bytes, creation time in seconds
/// since the epoch, and the content classification.
pub struct File {
    name: String,
    content: Vec<u8>,
    creation_time: u64,
    type_: FileType,
}

/// Mathematical model of a [`File`].
#[verifier::ext_equal]
pub struct FileV {
    pub name: Seq<char>,
    pub content: Seq<u8>,
    pub creation_time: u64,
    pub type_: FileType,
}

impl View for File {
    type V = FileV;

    closed spec fn view(&self) -> FileV {
        FileV {
            name: self.name@,
            content: self.content@,
            creation_time: self.creation_time,
            type_: self.type_,
        }
    }
}

impl Default for File {
    fn default() -> (f: Self)
        ensures
            f@ == (FileV {
                name: Seq::<char>::empty(),
                content: Seq::<u8>::empty(),
                creation_time: 0u64,
                type_: FileType::Text,
            }),
    {
        let f = File {
            name: String::new(),
            content: Vec::new(),
            creation_time: 0,
            type_: FileType::Text,
        };
        proof {
            assert(f@ =~= (FileV {
                name: Seq::<char>::empty(),
                content: Seq::<u8>::empty(),
                creation_time: 0u64,
                type_: FileType::Text,
            }));
        }
        f
    }
}

impl File {
    /// A copy of `file` carrying the new full path `path`; content, creation
    /// time and classification are taken verbatim from the template.
    pub fn new_from_file(path: &str, file: &File) -> (f: File)
        ensures
            f@ == (FileV { name: path@, ..file@ }),
    {
        let f = File {
            name: path.to_owned(),
            content: clone_content(&file.content),
            creation_time: file.creation_time,
            type_: match file.type_ {
                FileType::Binary => FileType::Binary,
                FileType::Text => FileType::Text,
            },
        };
        proof {
            assert(f@ =~= (FileV { name: path@, ..file@ }));
        }
        f
    }

    pub fn get_name(&self) -> (r: &str)
        ensures
            r@ == self@.name,
    {
        self.name.as_str()
    }

    pub fn get_filetype(&self) -> (r: &FileType)
        ensures
            *r == self@.type_,
    {
        &self.type_
    }

    pub fn get_content(&self) -> (r: &Vec<u8>)
        ensures
            r@ == self@.content,
    {
        &self.content
    }

    pub fn get_creation_time(&self) -> (r: u64)
        ensures
            r == self@.creation_time,
    {
        self.creation_time
    }

    pub fn set_name(&mut self, name: String)
        ensures
            final(self)@ == (FileV { name: name@, ..old(self)@ }),
    {
        self.name = name;
        proof {
            assert(self@ =~= (FileV { name: name@, ..old(self)@ }));
        }
    }

    pub fn set_content(&mut self, content: Vec<u8>)
        ensures
            final(self)@ == (FileV { content: content@, ..old(self)@ }),
    {
        self.content = content;
        proof {
            assert(self@ =~= (FileV { content: content@, ..old(self)@ }));
        }
    }

    pub fn set_creation_time(&mut self, creation_time: u64)
        ensures
            final(self)@ == (FileV { creation_time, ..old(self)@ }),
    {
        self.creation_time = creation_time;
        proof {
            assert(self@ =~= (FileV { creation_time, ..old(self)@ }));
        }
    }

    pub fn set_type_(&mut self, type_: FileType)
        ensures
            final(self)@ == (FileV { type_, ..old(self)@ }),
    {
        self.type_ = type_;
        proof {
            assert(self@ =~= (FileV { type_, ..old(self)@ }));
        }
    }
}

/// An element-wise copy of a byte vector.
fn clone_content(content: &Vec<u8>) -> (r: Vec<u8>)
    ensures
        r@ == content@,
{
    let mut r: Vec<u8> = Vec::new();
    let mut i: usize = 0;
    while i < content.len()
        invariant
            i <= content.len(),
            r@ == content@.take(i as int),
        decreases content.len() - i,
    {
        r.push(content[i]);
        i = i + 1;
        proof {
            assert(r@ =~= content@.take(i as int));
        }
    }
    proof {
        assert(r@ =~= content@);
    }
    r
}


/// The extension a file name carries: what follows the last `.` of the last
/// path component, or nothing when that component has no `.` past its first
/// character.
pub open spec fn spec_extension(name: Seq<char>) -> Seq<char> {
    let leaf = name.skip(last_index_of(name, '/') + 1);
    let d = last_index_of(leaf, '.');
    if d <= 0 {
        Seq::empty()
    } else {
        leaf.skip(d + 1)
    }
}

/// The extensions classified as text.
pub open spec fn is_text_extension(ext: Seq<char>) -> bool {
    ||| ext == "txt"@
    ||| ext == "md"@
    ||| ext == "rs"@
    ||| ext == "py"@
    ||| ext == "js"@
    ||| ext == "html"@
    ||| ext == "css"@
    ||| ext == "json"@
    ||| ext == "toml"@
    ||| ext == "yaml"@
    ||| ext == "yml"@
}

/// The classification a file receives when it enters the tree: `Text` for a
/// recognized extension, `Binary` otherwise.
pub open spec fn spec_classify(name: Seq<char>) -> FileType {
    if is_text_extension(spec_extension(name)) {
        FileType::Text
    } else {
        FileType::Binary
    }
}

/// Classifies a file name by its extension; see [`spec_classify`].
pub fn classify(name: &str) -> (t: FileType)
    ensures
        t == spec_classify(name@),
{
    proof {
        lemma_last_index_of(name@, '/');
        reveal_strlit("txt");
        reveal_strlit("md");
        reveal_strlit("rs");
        reveal_strlit("py");
        reveal_strlit("js");
        reveal_strlit("html");
        reveal_strlit("css");
        reveal_strlit("json");
        reveal_strlit("toml");
        reveal_strlit("yaml");
        reveal_strlit("yml");
    }
    let n = name.unicode_len();
    let leaf_start: usize = match last_index_char(name, '/') {
        Some(i) => i + 1,
        None => 0,
    };
    let leaf = name.substring_char(leaf_start, n);
    proof {
        assert(leaf@ =~= name@.skip(last_index_of(name@, '/') + 1));
        lemma_last_index_of(leaf@, '.');
    }
    let m = leaf.unicode_len();
    match last_index_char(leaf, '.') {
        None => {
            proof {
                assert(spec_extension(name@) =~= Seq::<char>::empty());
            }
            FileType::Binary
        },
        Some(0) => {
            proof {
                assert(spec_extension(name@) =~= Seq::<char>::empty());
            }
            FileType::Binary
        },
        Some(d) => {
            let ext = leaf.substring_char(d + 1, m);
            proof {
                assert(ext@ =~= spec_extension(name@));
            }
            let text = eq_str(ext, "txt") || eq_str(ext, "md") || eq_str(ext, "rs") || eq_str(
                ext,
                "py",
            ) || eq_str(ext, "js") || eq_str(ext, "html") || eq_str(ext, "css") || eq_str(
                ext,
                "json",
            ) || eq_str(ext, "toml") || eq_str(ext, "yaml") || eq_str(ext, "yml");
            if text {
                FileType::Text
            } else {
                FileType::Binary
            }
        },
    }
}

} // verus!
