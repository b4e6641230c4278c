use vstd::prelude::*;
use crate::errors::ErrorType;
use crate::hash::{GitHash, sha1_digest, hex_bytes, valid_hash_text};
use crate::object_type::{ObjectType, with_header};
use crate::text::{split_on, split_char, views, push_text, text_eq};

verus! {

/// What the index records of one file.
pub struct IndexEntry {
    /// The file's path, relative to the repository's home.
    pub path: Seq<char>,
    /// When the file was last modified, as text.
    pub date: Seq<char>,
    /// The hash of the file's content when it was last added.
    pub current: Seq<char>,
    /// The hash of the content before that, while the change is not
    /// committed; `None` once it is.
    pub previous: Option<Seq<char>>,
}

/// The text of the previous hash in an index line.
pub open spec fn previous_text(p: Option<Seq<char>>) -> Seq<char> {
    match p {
        Some(h) => h,
        None => "None"@,
    }
}

/// The line of the index file for an entry: path, date, current hash and
/// previous hash separated by spaces, then a line break.
pub open spec fn index_line(e: IndexEntry) -> Seq<char> {
    e.path + seq![' '] + e.date + seq![' '] + e.current + seq![' '] + previous_text(e.previous) + seq!['\n']
}

/// Why a line of the index file could not be read.
pub enum IndexLineError {
    /// Not four fields separated by spaces.
    Fields,
    /// A field that should be a hash is not one.
    Hash(Seq<char>),
}

/// The entry an index line describes: four fields separated by spaces, the
/// last either `None` or a hash.
pub open spec fn parse_index_line(line: Seq<char>) -> Result<IndexEntry, IndexLineError> {
    let parts = split_on(line, ' ');
    if parts.len() != 4 {
        Err(IndexLineError::Fields)
    } else if !valid_hash_text(parts[2]) {
        Err(IndexLineError::Hash(parts[2]))
    } else if parts[3] == "None"@ {
        Ok(IndexEntry { path: parts[0], date: parts[1], current: parts[2], previous: None })
    } else if !valid_hash_text(parts[3]) {
        Err(IndexLineError::Hash(parts[3]))
    } else {
        Ok(IndexEntry { path: parts[0], date: parts[1], current: parts[2], previous: Some(parts[3]) })
    }
}

/// Whether an error is the one a line gives that cannot be read.
pub open spec fn line_error_matches(err: ErrorType, e: IndexLineError) -> bool {
    match e {
        IndexLineError::Fields => err is FormatError,
        IndexLineError::Hash(t) => err matches ErrorType::InvalidHash(s) && s@ == t,
    }
}

/// The hash of a blob holding these bytes, as text.
pub open spec fn blob_hash_text(content: Seq<u8>) -> Seq<char> {
    hex_bytes(sha1_digest(with_header(content, ObjectType::Blob)))
}

/// The entry after a check for changes: nothing happens when the date is
/// the one recorded; otherwise the date is taken, and when the content hash
/// differs, the recorded hash becomes the previous one, unless the content
/// went back to the previous hash, which closes the change.
pub open spec fn changed_entry(e: IndexEntry, date: Seq<char>, hash: Seq<char>) -> IndexEntry {
    if date == e.date {
        e
    } else if hash == e.current {
        IndexEntry { date: date, ..e }
    } else if e.previous == Some(hash) {
        IndexEntry { date: date, current: hash, previous: None, ..e }
    } else {
        IndexEntry { date: date, current: hash, previous: Some(e.current), ..e }
    }
}

/// Whether that check must store the new content as a blob.
pub open spec fn change_needs_blob(e: IndexEntry, date: Seq<char>, hash: Seq<char>) -> bool {
    date != e.date && hash != e.current && e.previous != Some(hash)
}

/// What the index knows of one file.
#[derive(Debug)]
pub struct IndexFileInfo {
    path: String,
    mod_date: String,
    current_blob_hash: GitHash,
    previous_blob_hash: Option<GitHash>,
}

impl View for IndexFileInfo {
    type V = IndexEntry;

    closed spec fn view(&self) -> IndexEntry {
        IndexEntry {
            path: self.path@,
            date: self.mod_date@,
            current: self.current_blob_hash@,
            previous: match self.previous_blob_hash {
                Some(h) => Some(h@),
                None => None,
            },
        }
    }
}

impl Clone for IndexFileInfo {
    fn clone(&self) -> (r: Self)
        ensures
            r@ == self@,
    {
        IndexFileInfo {
            path: self.path.clone(),
            mod_date: self.mod_date.clone(),
            current_blob_hash: self.current_blob_hash.clone(),
            previous_blob_hash: match &self.previous_blob_hash {
                Some(h) => Some(h.clone()),
                None => None,
            },
        }
    }
}

impl IndexFileInfo {
    /// The entry of a file just added: its path, its modification date and
    /// the hash of its content. The previous hash starts as the current one,
    /// so that the file shows as a change to be committed.
    pub fn new(local_path: &str, mod_date: &str, content: &Vec<u8>) -> (r: Self)
        ensures
            r@ == (IndexEntry {
                path: local_path@,
                date: mod_date@,
                current: blob_hash_text(content@),
                previous: Some(blob_hash_text(content@)),
            }),
    {
        let current_blob_hash = GitHash::hash_blob(content);
        let previous_blob_hash = Some(current_blob_hash.clone());
        IndexFileInfo {
            path: String::from_str(local_path),
            mod_date: String::from_str(mod_date),
            current_blob_hash,
            previous_blob_hash,
        }
    }

    /// The file's path.
    pub fn get_path(&self) -> (r: String)
        ensures
            r@ == self@.path,
    {
        self.path.clone()
    }

    /// The hash of the file's content when it was last added.
    pub fn get_hash(&self) -> (r: GitHash)
        ensures
            r@ == self@.current,
    {
        self.current_blob_hash.clone()
    }

    /// Brings the entry up to date with the file as it is now: its
    /// modification date and content. Returns whether the content must be
    /// stored as a new blob.
    pub fn verify_change(&mut self, current_date: &str, new_content: &Vec<u8>) -> (r: bool)
        ensures
            final(self)@ == changed_entry(old(self)@, current_date@, blob_hash_text(new_content@)),
            r == change_needs_blob(old(self)@, current_date@, blob_hash_text(new_content@)),
    {
        if text_eq(current_date, self.mod_date.as_str()) {
            return false;
        }
        self.mod_date = String::from_str(current_date);
        let current_blob_hash = GitHash::hash_blob(new_content);
        if !current_blob_hash.same_as(&self.current_blob_hash) {
            if let Some(prev_hash) = &self.previous_blob_hash {
                if prev_hash.same_as(&current_blob_hash) {
                    self.previous_blob_hash = None;
                    self.current_blob_hash = current_blob_hash;
                    return false;
                }
            }
            let old_hash = self.current_blob_hash.clone();
            self.previous_blob_hash = Some(old_hash);
            self.current_blob_hash = current_blob_hash;
            return true;
        }
        false
    }

    /// The line of the index file for this entry.
    pub fn to_index_line(&self) -> (r: String)
        ensures
            r@ == index_line(self@),
    {
        let mut line = self.path.clone();
        push_text(&mut line, " ");
        push_text(&mut line, self.mod_date.as_str());
        push_text(&mut line, " ");
        push_text(&mut line, self.current_blob_hash.as_str());
        push_text(&mut line, " ");
        match &self.previous_blob_hash {
            Some(h) => push_text(&mut line, h.as_str()),
            None => push_text(&mut line, "None"),
        }
        push_text(&mut line, "\n");
        proof {
            reveal_strlit(" ");
            reveal_strlit("\n");
        }
        assert(line@ =~= index_line(self@));
        line
    }

    /// Whether the file's content now differs from what was last added.
    pub fn has_changed(&self, current_content: &Vec<u8>) -> (r: bool)
        ensures
            r == (blob_hash_text(current_content@) != self@.current),
    {
        let current_hash = GitHash::hash_blob(current_content);
        !current_hash.same_as(&self.current_blob_hash)
    }

    /// Whether the file changed since the last commit.
    pub fn added_since_commit(&self) -> (r: bool)
        ensures
            r == (self@.previous is Some),
    {
        self.previous_blob_hash.is_some()
    }

    /// Marks the file's change as committed.
    pub fn reset_previous_blob_hash(&mut self)
        ensures
            final(self)@ == (IndexEntry { previous: None, ..old(self)@ }),
    {
        self.previous_blob_hash = None;
    }

    /// Reads an entry from a line of the index file (without its line
    /// break).
    pub fn try_from(line: &str) -> (r: Result<IndexFileInfo, ErrorType>)
        ensures
            match parse_index_line(line@) {
                Ok(e) => r matches Ok(info) && info@ == e,
                Err(e) => r matches Err(err) && line_error_matches(err, e),
            },
    {
        let parts = split_char(line, ' ');
        assert(views(parts@).len() == parts@.len());
        if parts.len() != 4 {
            return Err(ErrorType::FormatError(String::from_str(
                "the format for file index is:'path modification_date current_blob_hash previous_blob_hash' separated by spaces.Previous blob hash may be None",
            )));
        }
        assert(views(parts@)[2] == parts@[2]@);
        assert(views(parts@)[3] == parts@[3]@);
        assert(views(parts@)[0] == parts@[0]@);
        assert(views(parts@)[1] == parts@[1]@);
        let current_blob_hash = match GitHash::new(parts[2].as_str()) {
            Ok(h) => h,
            Err(e) => return Err(e),
        };
        let previous_blob_hash = if text_eq(parts[3].as_str(), "None") {
            proof { reveal_strlit("None"); }
            None
        } else {
            proof { reveal_strlit("None"); }
            match GitHash::new(parts[3].as_str()) {
                Ok(h) => Some(h),
                Err(e) => return Err(e),
            }
        };
        Ok(IndexFileInfo {
            path: parts[0].clone(),
            mod_date: parts[1].clone(),
            current_blob_hash,
            previous_blob_hash,
        })
    }
}

} // verus!
