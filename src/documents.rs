//! The stored documents: how a save merges into what is stored, what is
//! refused before it reaches the store, and what a load hands back.
use vstd::prelude::*;

verus! {

/// The largest attachment that is stored, in bytes (1 MiB).
pub const MAX_ATTACHMENT_BYTES: usize = 1048576;

/// How long a document is kept after its last write, in seconds.
pub const DOCUMENT_TTL_SECONDS: u64 = 3600;

/// What is stored for one path.
pub struct Document {
    pub path: String,
    pub text: String,
    pub attachment: Option<Vec<u8>>,
    pub attachment_name: String,
    /// Milliseconds since the Unix epoch of the last write.
    pub updated_at: i64,
}

pub struct DocumentView {
    pub path: Seq<char>,
    pub text: Seq<char>,
    pub attachment: Option<Seq<u8>>,
    pub attachment_name: Seq<char>,
    pub updated_at: int,
}

pub open spec fn bytes_view(b: Option<Vec<u8>>) -> Option<Seq<u8>> {
    match b {
        Some(v) => Some(v@),
        None => None,
    }
}

impl View for Document {
    type V = DocumentView;

    open spec fn view(&self) -> DocumentView {
        DocumentView {
            path: self.path@,
            text: self.text@,
            attachment: bytes_view(self.attachment),
            attachment_name: self.attachment_name@,
            updated_at: self.updated_at as int,
        }
    }
}

pub open spec fn document_view(d: Option<Document>) -> Option<DocumentView> {
    match d {
        Some(d) => Some(d@),
        None => None,
    }
}

/// One save: it sets either the text or the attachment, never both.
pub enum Write {
    Text(String),
    Attachment { bytes: Vec<u8>, name: String },
}

pub enum WriteView {
    Text(Seq<char>),
    Attachment(Seq<u8>, Seq<char>),
}

impl View for Write {
    type V = WriteView;

    open spec fn view(&self) -> WriteView {
        match self {
            Write::Text(t) => WriteView::Text(t@),
            Write::Attachment { bytes, name } => WriteView::Attachment(bytes@, name@),
        }
    }
}

/// The document stored for `path` after `write` at time `now`, given what was
/// stored before. A new document starts with empty text and no attachment;
/// the write sets only its own field(s) and the time.
pub open spec fn upserted(
    existing: Option<DocumentView>,
    path: Seq<char>,
    write: WriteView,
    now: int,
) -> DocumentView {
    let (text, attachment, attachment_name) = match existing {
        Some(d) => (d.text, d.attachment, d.attachment_name),
        None => (Seq::<char>::empty(), None, Seq::<char>::empty()),
    };
    match write {
        WriteView::Text(t) => DocumentView {
            path,
            text: t,
            attachment,
            attachment_name,
            updated_at: now,
        },
        WriteView::Attachment(b, n) => DocumentView {
            path,
            text,
            attachment: Some(b),
            attachment_name: n,
            updated_at: now,
        },
    }
}

/// Why a save was refused before it reached the store.
#[derive(Debug, PartialEq, Eq, Structural)]
pub enum SaveError {
    /// The attachment has more than `MAX_ATTACHMENT_BYTES` bytes.
    AttachmentTooLarge { size: usize },
    /// A file save came without a file.
    MissingAttachment,
}

/// Merges `write` into the document stored for `path` (if any) at time `now`.
pub fn upsert(existing: Option<Document>, path: String, write: Write, now: i64) -> (d: Document)
    ensures
        d@ == upserted(document_view(existing), path@, write@, now as int),
{
    let (text, attachment, attachment_name) = match existing {
        Some(old_doc) => (old_doc.text, old_doc.attachment, old_doc.attachment_name),
        None => (String::new(), None, String::new()),
    };
    match write {
        Write::Text(t) => Document { path, text: t, attachment, attachment_name, updated_at: now },
        Write::Attachment { bytes, name } => Document {
            path,
            text,
            attachment: Some(bytes),
            attachment_name: name,
            updated_at: now,
        },
    }
}

/// Accepts an attachment of at most `MAX_ATTACHMENT_BYTES` bytes.
pub fn validate_attachment(bytes: &Vec<u8>) -> (r: Result<(), SaveError>)
    ensures
        bytes@.len() <= MAX_ATTACHMENT_BYTES ==> r is Ok,
        bytes@.len() > MAX_ATTACHMENT_BYTES ==> r == Err::<(), SaveError>(
            SaveError::AttachmentTooLarge { size: bytes.len() },
        ),
{
    if bytes.len() > MAX_ATTACHMENT_BYTES {
        Err(SaveError::AttachmentTooLarge { size: bytes.len() })
    } else {
        Ok(())
    }
}

/// Relies on bson's `DateTime::now` and `timestamp_millis`: the current time
/// in milliseconds since the Unix epoch. It depends on the clock, so nothing
/// is promised of it.
#[verifier::external_body]
fn now_millis() -> (t: i64) {
    bson::DateTime::now().timestamp_millis()
}

/// The document stored for `path` after its text is set to `text` now.
pub fn save_text(existing: Option<Document>, path: String, text: String) -> (d: Document)
    ensures
        d@ == upserted(document_view(existing), path@, WriteView::Text(text@), d.updated_at as int),
{
    let now = now_millis();
    upsert(existing, path, Write::Text(text), now)
}

/// The document stored for `path` after its attachment is set to `file`,
/// named `file_name`, now; or why the save is refused, in which case nothing
/// is to be stored. A save without a file is refused.
pub fn save_file(
    existing: Option<Document>,
    path: String,
    file: Option<Vec<u8>>,
    file_name: String,
) -> (r: Result<Document, SaveError>)
    ensures
        match file {
            None => r == Err::<Document, SaveError>(SaveError::MissingAttachment),
            Some(b) => if b@.len() > MAX_ATTACHMENT_BYTES {
                r == Err::<Document, SaveError>(SaveError::AttachmentTooLarge { size: b.len() })
            } else {
                r matches Ok(d) && d@ == upserted(
                    document_view(existing),
                    path@,
                    WriteView::Attachment(b@, file_name@),
                    d.updated_at as int,
                )
            },
        },
{
    match file {
        None => Err(SaveError::MissingAttachment),
        Some(bytes) => {
            match validate_attachment(&bytes) {
                Err(e) => Err(e),
                Ok(()) => {
                    let now = now_millis();
                    Ok(upsert(existing, path, Write::Attachment { bytes, name: file_name }, now))
                },
            }
        },
    }
}

/// What a load hands back for one path.
pub struct LoadResponse {
    pub text: String,
    pub file: Option<Vec<u8>>,
    pub file_name: String,
}

/// The answer to a load: the stored fields, or empty text, no file and an
/// empty file name when nothing is stored for the path.
pub fn load_response(found: Option<Document>) -> (r: LoadResponse)
    ensures
        found is None ==> r.text@ == Seq::<char>::empty() && r.file is None && r.file_name@
            == Seq::<char>::empty(),
        found matches Some(d) ==> r.text@ == d.text@ && bytes_view(r.file) == bytes_view(
            d.attachment,
        ) && r.file_name@ == d.attachment_name@,
{
    match found {
        Some(d) => LoadResponse { text: d.text, file: d.attachment, file_name: d.attachment_name },
        None => LoadResponse { text: String::new(), file: None, file_name: String::new() },
    }
}

/// Setting the text of a path sets it to exactly that text and leaves the
/// attachment and its name as they were (absent for a new document).
pub proof fn text_write_keeps_attachment(
    existing: Option<DocumentView>,
    path: Seq<char>,
    text: Seq<char>,
    now: int,
)
    ensures
        upserted(existing, path, WriteView::Text(text), now).text == text,
        upserted(existing, path, WriteView::Text(text), now).attachment == match existing {
            Some(d) => d.attachment,
            None => None,
        },
        upserted(existing, path, WriteView::Text(text), now).attachment_name == match existing {
            Some(d) => d.attachment_name,
            None => Seq::<char>::empty(),
        },
{
}

/// Setting the attachment of a path stores exactly those bytes under that
/// name and leaves the text as it was (empty for a new document).
pub proof fn attachment_write_keeps_text(
    existing: Option<DocumentView>,
    path: Seq<char>,
    bytes: Seq<u8>,
    name: Seq<char>,
    now: int,
)
    ensures
        upserted(existing, path, WriteView::Attachment(bytes, name), now).attachment == Some(bytes),
        upserted(existing, path, WriteView::Attachment(bytes, name), now).attachment_name == name,
        upserted(existing, path, WriteView::Attachment(bytes, name), now).text == match existing {
            Some(d) => d.text,
            None => Seq::<char>::empty(),
        },
{
}

} // verus!
