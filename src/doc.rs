//! The records of an index: identities, object information, documents and
//! the events that a record turns into, with the parsers of their
//! pipe-delimited subfields.

use vstd::prelude::*;

use crate::text::{decimal_u64, parse_u64, split_on, split_pipe, text_eq, views};

verus! {

/// A SHA-1 digest.
pub type Checksum = [u8; 20];

/// The identity of an artifact: group, artifact and version, and the
/// optional classifier and extension.
#[derive(Clone, Debug, PartialEq, Eq, Hash)]
pub struct UniqId {
    pub group: String,
    pub artifact: String,
    pub version: String,
    pub classifier: Option<String>,
    pub extension: Option<String>,
}

pub struct UniqIdView {
    pub group: Seq<char>,
    pub artifact: Seq<char>,
    pub version: Seq<char>,
    pub classifier: Option<Seq<char>>,
    pub extension: Option<Seq<char>>,
}

pub open spec fn opt_view(o: Option<String>) -> Option<Seq<char>> {
    match o {
        Some(s) => Some(s@),
        None => None,
    }
}

impl View for UniqId {
    type V = UniqIdView;

    open spec fn view(&self) -> UniqIdView {
        UniqIdView {
            group: self.group@,
            artifact: self.artifact@,
            version: self.version@,
            classifier: opt_view(self.classifier),
            extension: opt_view(self.extension),
        }
    }
}

/// Whether a sidecar file (sources, javadoc, signature) was published.
#[derive(Clone, Copy, Debug, PartialEq, Eq, Structural)]
pub enum AttachmentStatus {
    Absent,
    Present,
    Unavailable,
}

/// What an index says of the published file.
#[derive(Clone, Debug, PartialEq, Eq)]
pub struct FullInfo {
    pub packaging: String,
    /// Milliseconds since the epoch.
    pub last_modified: u64,
    pub size: Option<u64>,
    pub source_attached: AttachmentStatus,
    pub javadoc_attached: AttachmentStatus,
    pub signature_attached: AttachmentStatus,
    pub extension: String,
}

pub struct FullInfoView {
    pub packaging: Seq<char>,
    pub last_modified: u64,
    pub size: Option<u64>,
    pub source_attached: AttachmentStatus,
    pub javadoc_attached: AttachmentStatus,
    pub signature_attached: AttachmentStatus,
    pub extension: Seq<char>,
}

impl View for FullInfo {
    type V = FullInfoView;

    open spec fn view(&self) -> FullInfoView {
        FullInfoView {
            packaging: self.packaging@,
            last_modified: self.last_modified,
            size: self.size,
            source_attached: self.source_attached,
            javadoc_attached: self.javadoc_attached,
            signature_attached: self.signature_attached,
            extension: self.extension@,
        }
    }
}

/// A document of the index: one published file.
#[derive(Debug)]
pub struct Doc {
    pub id: UniqId,
    pub object_info: FullInfo,
    /// Milliseconds since the epoch.
    pub modified: u64,
    pub name: Option<String>,
    pub description: Option<String>,
    pub checksum: Option<Checksum>,
}

pub struct DocView {
    pub id: UniqIdView,
    pub object_info: FullInfoView,
    pub modified: u64,
    pub name: Option<Seq<char>>,
    pub description: Option<Seq<char>>,
    pub checksum: Option<Seq<u8>>,
}

pub open spec fn checksum_view(c: Option<Checksum>) -> Option<Seq<u8>> {
    match c {
        Some(a) => Some(a@),
        None => None,
    }
}

impl View for Doc {
    type V = DocView;

    open spec fn view(&self) -> DocView {
        DocView {
            id: self.id@,
            object_info: self.object_info@,
            modified: self.modified,
            name: opt_view(self.name),
            description: opt_view(self.description),
            checksum: checksum_view(self.checksum),
        }
    }
}

/// The name of a field. The one-letter names of a document have variants of
/// their own.
#[derive(Clone, Debug, PartialEq, Eq, Hash)]
pub enum Name {
    U,
    I,
    N,
    D,
    M,
    Checksum,
    Other(String),
}

pub enum NameView {
    U,
    I,
    N,
    D,
    M,
    Checksum,
    Other(Seq<char>),
}

impl View for Name {
    type V = NameView;

    open spec fn view(&self) -> NameView {
        match self {
            Name::U => NameView::U,
            Name::I => NameView::I,
            Name::N => NameView::N,
            Name::D => NameView::D,
            Name::M => NameView::M,
            Name::Checksum => NameView::Checksum,
            Name::Other(s) => NameView::Other(s@),
        }
    }
}

impl Name {
    /// Whether this is the name `other`, outside the one-letter names.
    pub fn is_other_eq(&self, other: &str) -> (r: bool)
        ensures
            r == (self@ == NameView::Other(other@)),
    {
        match self {
            Name::Other(s) => text_eq(s.as_str(), other),
            _ => false,
        }
    }
}

/// Why a record is not a document, or not a well-formed one.
#[derive(Clone, Copy, Debug, PartialEq, Eq, Structural)]
pub enum DocError {
    /// The record lacks one of the fields `u`, `i` and `m`.
    UnrecognisedDocType,
    /// The identity has fewer than four parts.
    UniqParts,
    /// The object information does not have seven parts.
    InfoParts,
    /// The time of the object information is not a decimal.
    LastModified,
    /// The size is neither `-1` nor a decimal.
    Size,
    /// An attachment flag is not 0, 1 or 2.
    Attachment,
    /// The field `m` is not a decimal.
    Modified,
    /// No field `u`.
    MissingUniq,
    /// No field `i`.
    MissingInfo,
    /// No field `m`.
    MissingModified,
}

/// What one record of the index stands for.
#[derive(Debug)]
pub enum Event {
    Doc(Doc),
    Delete(UniqId),
    Error { error: DocError, raw: Vec<(Name, String)> },
}

pub enum EventView {
    Doc(DocView),
    Delete(UniqIdView),
    Error { error: DocError, raw: Seq<(NameView, Seq<char>)> },
}

/// The fields of a record, as names and texts.
pub open spec fn fields_view(v: Seq<(Name, String)>) -> Seq<(NameView, Seq<char>)> {
    v.map_values(|f: (Name, String)| (f.0@, f.1@))
}

impl View for Event {
    type V = EventView;

    open spec fn view(&self) -> EventView {
        match self {
            Event::Doc(d) => EventView::Doc(d@),
            Event::Delete(u) => EventView::Delete(u@),
            Event::Error { error, raw } => EventView::Error { error: *error, raw: fields_view(raw@) },
        }
    }
}

// ---------------------------------------------------------------------------
// Subfields

/// The classifier slot: `NA` stands for none.
pub open spec fn spec_not_na(v: Seq<char>) -> Option<Seq<char>> {
    if v == "NA"@ {
        None
    } else {
        Some(v)
    }
}

/// The identity that a `u` value writes: at least four parts between `|`;
/// a fifth is the extension, and any after it are ignored.
pub open spec fn spec_uniq(v: Seq<char>) -> Result<UniqIdView, DocError> {
    let p = split_on(v, '|');
    if p.len() < 4 {
        Err(DocError::UniqParts)
    } else {
        Ok(
            UniqIdView {
                group: p[0],
                artifact: p[1],
                version: p[2],
                classifier: spec_not_na(p[3]),
                extension: if p.len() >= 5 {
                    Some(p[4])
                } else {
                    None
                },
            },
        )
    }
}

/// The size slot: `-1` stands for none.
pub open spec fn spec_size(v: Seq<char>) -> Result<Option<u64>, DocError> {
    if v == "-1"@ {
        Ok(None)
    } else {
        match decimal_u64(v) {
            Some(n) => Ok(Some(n)),
            None => Err(DocError::Size),
        }
    }
}

/// An attachment flag: 0, 1 or 2.
pub open spec fn spec_attachment(v: Seq<char>) -> Result<AttachmentStatus, DocError> {
    match decimal_u64(v) {
        Some(n) => if n == 0 {
            Ok(AttachmentStatus::Absent)
        } else if n == 1 {
            Ok(AttachmentStatus::Present)
        } else if n == 2 {
            Ok(AttachmentStatus::Unavailable)
        } else {
            Err(DocError::Attachment)
        },
        None => Err(DocError::Attachment),
    }
}

/// The object information that an `i` value writes: seven parts between `|`.
pub open spec fn spec_info(v: Seq<char>) -> Result<FullInfoView, DocError> {
    let p = split_on(v, '|');
    if p.len() != 7 {
        Err(DocError::InfoParts)
    } else if decimal_u64(p[1]) is None {
        Err(DocError::LastModified)
    } else if spec_size(p[2]) is Err {
        Err(DocError::Size)
    } else if spec_attachment(p[3]) is Err || spec_attachment(p[4]) is Err || spec_attachment(
        p[5],
    ) is Err {
        Err(DocError::Attachment)
    } else {
        Ok(
            FullInfoView {
                packaging: p[0],
                last_modified: decimal_u64(p[1])->0,
                size: spec_size(p[2])->Ok_0,
                source_attached: spec_attachment(p[3])->Ok_0,
                javadoc_attached: spec_attachment(p[4])->Ok_0,
                signature_attached: spec_attachment(p[5])->Ok_0,
                extension: p[6],
            },
        )
    }
}

pub open spec fn is_hex_digit(c: char) -> bool {
    ('0' <= c && c <= '9') || ('a' <= c && c <= 'f') || ('A' <= c && c <= 'F')
}

pub open spec fn hex_value(c: char) -> int {
    if '0' <= c && c <= '9' {
        c as int - '0' as int
    } else if 'a' <= c && c <= 'f' {
        c as int - 'a' as int + 10
    } else {
        c as int - 'A' as int + 10
    }
}

/// The digest that a `1` value writes: forty hex digits, two for each byte,
/// the high half first.
pub open spec fn spec_checksum(v: Seq<char>) -> Option<Seq<u8>> {
    if v.len() == 40 && forall|i: int| 0 <= i < 40 ==> is_hex_digit(#[trigger] v[i]) {
        Some(Seq::new(20, |i: int| (hex_value(v[2 * i]) * 16 + hex_value(v[2 * i + 1])) as u8))
    } else {
        None
    }
}

/// Relies on `hex::decode_to_slice`: it fills the twenty bytes when the text
/// is forty hex digits of either case, and fails otherwise.
#[verifier::external_body]
fn decode_hex_20(v: &str) -> (r: Option<Checksum>)
    ensures
        match r {
            Some(a) => spec_checksum(v@) == Some(a@),
            None => spec_checksum(v@) is None,
        },
{
    let mut arr = [0u8; 20];
    hex::decode_to_slice(v, &mut arr).ok().map(|_| arr)
}

fn not_na(value: &str) -> (r: Option<&str>)
    ensures
        match r {
            Some(s) => spec_not_na(value@) == Some(s@),
            None => spec_not_na(value@) is None,
        },
{
    if text_eq(value, "NA") {
        None
    } else {
        Some(value)
    }
}

fn read_uniq(value: &str) -> (r: Result<UniqId, DocError>)
    ensures
        match r {
            Ok(u) => spec_uniq(value@) == Ok::<UniqIdView, DocError>(u@),
            Err(e) => spec_uniq(value@) == Err::<UniqIdView, DocError>(e),
        },
{
    let parts = split_pipe(value);
    let ghost p = split_on(value@, '|');
    assert(forall|i: int| 0 <= i < parts.len() ==> parts@[i]@ == #[trigger] p[i]);
    if parts.len() < 4 {
        return Err(DocError::UniqParts);
    }
    let classifier = match not_na(parts[3].as_str()) {
        Some(s) => Some(s.to_owned()),
        None => None,
    };
    let extension = if parts.len() >= 5 {
        Some(parts[4].clone())
    } else {
        None
    };
    Ok(
        UniqId {
            group: parts[0].clone(),
            artifact: parts[1].clone(),
            version: parts[2].clone(),
            classifier,
            extension,
        },
    )
}

fn read_size(value: &str) -> (r: Result<Option<u64>, DocError>)
    ensures
        r == spec_size(value@),
{
    if text_eq(value, "-1") {
        return Ok(None);
    }
    match parse_u64(value) {
        Some(n) => Ok(Some(n)),
        None => Err(DocError::Size),
    }
}

impl AttachmentStatus {
    fn read(value: &str) -> (r: Result<AttachmentStatus, DocError>)
        ensures
            r == spec_attachment(value@),
    {
        match parse_u64(value) {
            Some(0) => Ok(AttachmentStatus::Absent),
            Some(1) => Ok(AttachmentStatus::Present),
            Some(2) => Ok(AttachmentStatus::Unavailable),
            _ => Err(DocError::Attachment),
        }
    }
}

fn read_info(value: &str) -> (r: Result<FullInfo, DocError>)
    ensures
        match r {
            Ok(f) => spec_info(value@) == Ok::<FullInfoView, DocError>(f@),
            Err(e) => spec_info(value@) == Err::<FullInfoView, DocError>(e),
        },
{
    let parts = split_pipe(value);
    let ghost p = split_on(value@, '|');
    assert(forall|i: int| 0 <= i < parts.len() ==> parts@[i]@ == #[trigger] p[i]);
    if parts.len() != 7 {
        return Err(DocError::InfoParts);
    }
    let last_modified = match parse_u64(parts[1].as_str()) {
        Some(t) => t,
        None => return Err(DocError::LastModified),
    };
    let size = read_size(parts[2].as_str())?;
    let source_attached = AttachmentStatus::read(parts[3].as_str())?;
    let javadoc_attached = AttachmentStatus::read(parts[4].as_str())?;
    let signature_attached = AttachmentStatus::read(parts[5].as_str())?;
    Ok(
        FullInfo {
            packaging: parts[0].clone(),
            last_modified,
            size,
            source_attached,
            javadoc_attached,
            signature_attached,
            extension: parts[6].clone(),
        },
    )
}

fn read_checksum(value: &str) -> (r: Option<Checksum>)
    ensures
        checksum_view(r) == spec_checksum(value@),
{
    decode_hex_20(value)
}

// ---------------------------------------------------------------------------
// Documents

/// What the fields of a document have given so far.
pub struct DocParts {
    pub id: Option<UniqIdView>,
    pub info: Option<FullInfoView>,
    pub modified: Option<u64>,
    pub name: Option<Seq<char>>,
    pub description: Option<Seq<char>>,
    pub checksum: Option<Seq<u8>>,
}

/// The fields read in order, a later field of a name taking the place of an
/// earlier one. A malformed `u`, `i` or `m` is an error; a malformed `1`
/// leaves no checksum; other names are ignored.
pub open spec fn doc_parts(fs: Seq<(NameView, Seq<char>)>) -> Result<DocParts, DocError>
    decreases fs.len(),
{
    if fs.len() == 0 {
        Ok(
            DocParts {
                id: None,
                info: None,
                modified: None,
                name: None,
                description: None,
                checksum: None,
            },
        )
    } else {
        match doc_parts(fs.drop_last()) {
            Err(e) => Err(e),
            Ok(acc) => {
                let v = fs.last().1;
                match fs.last().0 {
                    NameView::U => match spec_uniq(v) {
                        Ok(u) => Ok(DocParts { id: Some(u), ..acc }),
                        Err(e) => Err(e),
                    },
                    NameView::I => match spec_info(v) {
                        Ok(i) => Ok(DocParts { info: Some(i), ..acc }),
                        Err(e) => Err(e),
                    },
                    NameView::M => match decimal_u64(v) {
                        Some(m) => Ok(DocParts { modified: Some(m), ..acc }),
                        None => Err(DocError::Modified),
                    },
                    NameView::N => Ok(DocParts { name: Some(v), ..acc }),
                    NameView::D => Ok(DocParts { description: Some(v), ..acc }),
                    NameView::Checksum => Ok(DocParts { checksum: spec_checksum(v), ..acc }),
                    NameView::Other(_) => Ok(acc),
                }
            },
        }
    }
}

/// Once a prefix of the fields is in error, so are the fields.
proof fn lemma_doc_parts_err(fs: Seq<(NameView, Seq<char>)>, k: int)
    requires
        0 <= k <= fs.len(),
        doc_parts(fs.take(k)) is Err,
    ensures
        doc_parts(fs) == doc_parts(fs.take(k)),
    decreases fs.len(),
{
    if k == fs.len() {
        assert(fs.take(k) =~= fs);
    } else {
        assert(fs.drop_last().take(k) =~= fs.take(k));
        lemma_doc_parts_err(fs.drop_last(), k);
    }
}

/// The document that a list of fields writes.
pub open spec fn spec_doc(fs: Seq<(NameView, Seq<char>)>) -> Result<DocView, DocError> {
    match doc_parts(fs) {
        Err(e) => Err(e),
        Ok(p) => if p.id is None {
            Err(DocError::MissingUniq)
        } else if p.info is None {
            Err(DocError::MissingInfo)
        } else if p.modified is None {
            Err(DocError::MissingModified)
        } else {
            Ok(
                DocView {
                    id: p.id->0,
                    object_info: p.info->0,
                    modified: p.modified->0,
                    name: p.name,
                    description: p.description,
                    checksum: p.checksum,
                },
            )
        },
    }
}

fn read_doc(fields: &Vec<(Name, String)>) -> (r: Result<Doc, DocError>)
    ensures
        match r {
            Ok(d) => spec_doc(fields_view(fields@)) == Ok::<DocView, DocError>(d@),
            Err(e) => spec_doc(fields_view(fields@)) == Err::<DocView, DocError>(e),
        },
{
    let ghost fs = fields_view(fields@);
    let mut you: Option<UniqId> = None;
    let mut eye: Option<FullInfo> = None;
    let mut modified: Option<u64> = None;
    let mut name: Option<String> = None;
    let mut description: Option<String> = None;
    let mut checksum: Option<Checksum> = None;
    let mut i: usize = 0;
    while i < fields.len()
        invariant
            fs == fields_view(fields@),
            i <= fields.len(),
            doc_parts(fs.take(i as int)) == Ok::<DocParts, DocError>(
                DocParts {
                    id: match you {
                        Some(u) => Some(u@),
                        None => None,
                    },
                    info: match eye {
                        Some(f) => Some(f@),
                        None => None,
                    },
                    modified: modified,
                    name: opt_view(name),
                    description: opt_view(description),
                    checksum: checksum_view(checksum),
                },
            ),
        decreases fields.len() - i,
    {
        let ghost pre = fs.take(i as int);
        let ghost cur = fs.take(i as int + 1);
        assert(cur.drop_last() =~= pre);
        assert(cur.last() == fs[i as int]);
        let value = fields[i].1.as_str();
        proof {
            if doc_parts(cur) is Err {
                lemma_doc_parts_err(fs, i as int + 1);
            }
        }
        match &fields[i].0 {
            Name::U => match read_uniq(value) {
                Ok(u) => you = Some(u),
                Err(e) => return Err(e),
            },
            Name::I => match read_info(value) {
                Ok(f) => eye = Some(f),
                Err(e) => return Err(e),
            },
            Name::M => match parse_u64(value) {
                Some(m) => modified = Some(m),
                None => return Err(DocError::Modified),
            },
            Name::N => name = Some(value.to_owned()),
            Name::D => description = Some(value.to_owned()),
            Name::Checksum => checksum = read_checksum(value),
            Name::Other(_) => {},
        }
        i = i + 1;
    }
    assert(fs.take(fields.len() as int) =~= fs);
    let id = match you {
        Some(u) => u,
        None => return Err(DocError::MissingUniq),
    };
    let object_info = match eye {
        Some(f) => f,
        None => return Err(DocError::MissingInfo),
    };
    let modified = match modified {
        Some(m) => m,
        None => return Err(DocError::MissingModified),
    };
    Ok(Doc { id, object_info, modified, name, description, checksum })
}

// ---------------------------------------------------------------------------
// Records

/// The text of the first field named `n`.
pub open spec fn value_of(fs: Seq<(NameView, Seq<char>)>, n: NameView) -> Option<Seq<char>>
    decreases fs.len(),
{
    if fs.len() == 0 {
        None
    } else if fs[0].0 == n {
        Some(fs[0].1)
    } else {
        value_of(fs.skip(1), n)
    }
}

pub open spec fn has_name(fs: Seq<(NameView, Seq<char>)>, n: NameView) -> bool {
    value_of(fs, n) is Some
}

/// Whether the names of the fields are the two names `a` and `b`, and no
/// other.
pub open spec fn names_are(fs: Seq<(NameView, Seq<char>)>, a: Seq<char>, b: Seq<char>) -> bool {
    &&& has_name(fs, NameView::Other(a))
    &&& has_name(fs, NameView::Other(b))
    &&& forall|i: int|
        0 <= i < fs.len() ==> #[trigger] fs[i].0 == NameView::Other(a) || fs[i].0 == NameView::Other(
            b,
        )
}

/// The header and summary records of an index, which carry no document.
pub open spec fn is_summary(fs: Seq<(NameView, Seq<char>)>) -> bool {
    names_are(fs, "DESCRIPTOR"@, "IDXINFO"@) || names_are(fs, "rootGroups"@, "rootGroupsList"@)
        || names_are(fs, "allGroups"@, "allGroupsList"@)
}

/// What a record stands for, if anything: a deletion where it has a field
/// `del`; nothing for a summary record; else a document where it has `u`,
/// `i` and `m` and they are well formed; else an error that carries the
/// record.
pub open spec fn spec_classify(fs: Seq<(NameView, Seq<char>)>) -> Option<EventView> {
    let del = NameView::Other("del"@);
    if has_name(fs, del) {
        Some(
            match spec_uniq(value_of(fs, del)->0) {
                Ok(u) => EventView::Delete(u),
                Err(e) => EventView::Error { error: e, raw: fs },
            },
        )
    } else if is_summary(fs) {
        None
    } else if !(has_name(fs, NameView::U) && has_name(fs, NameView::I) && has_name(fs, NameView::M)) {
        Some(EventView::Error { error: DocError::UnrecognisedDocType, raw: fs })
    } else {
        Some(
            match spec_doc(fs) {
                Ok(d) => EventView::Doc(d),
                Err(e) => EventView::Error { error: e, raw: fs },
            },
        )
    }
}

pub open spec fn event_opt_view(o: Option<Event>) -> Option<EventView> {
    match o {
        Some(e) => Some(e@),
        None => None,
    }
}

/// A document comes only from a record with the fields `u`, `i` and `m`, and
/// an error carries the record it comes from.
pub proof fn lemma_doc_has_identity_fields(fs: Seq<(NameView, Seq<char>)>)
    ensures
        spec_classify(fs) matches Some(EventView::Doc(_)) ==> has_name(fs, NameView::U) && has_name(
            fs,
            NameView::I,
        ) && has_name(fs, NameView::M),
        spec_classify(fs) matches Some(EventView::Error { raw, .. }) ==> raw == fs,
{
}

fn name_eq(a: &Name, b: &Name) -> (r: bool)
    ensures
        r == (a@ == b@),
{
    match (a, b) {
        (Name::U, Name::U) => true,
        (Name::I, Name::I) => true,
        (Name::N, Name::N) => true,
        (Name::D, Name::D) => true,
        (Name::M, Name::M) => true,
        (Name::Checksum, Name::Checksum) => true,
        (Name::Other(x), Name::Other(y)) => text_eq(x.as_str(), y.as_str()),
        _ => false,
    }
}

/// The index of the first field named `n`.
fn position(fields: &Vec<(Name, String)>, n: &Name) -> (r: Option<usize>)
    ensures
        match r {
            Some(i) => i < fields.len() && value_of(fields_view(fields@), n@) == Some(
                fields@[i as int].1@,
            ),
            None => value_of(fields_view(fields@), n@) is None,
        },
{
    let ghost fs = fields_view(fields@);
    let mut i: usize = 0;
    assert(fs.skip(0) =~= fs);
    while i < fields.len()
        invariant
            fs == fields_view(fields@),
            i <= fields.len(),
            value_of(fs, n@) == value_of(fs.skip(i as int), n@),
        decreases fields.len() - i,
    {
        assert(fs.skip(i as int)[0] == fs[i as int]);
        assert(fs.skip(i as int).skip(1) =~= fs.skip(i as int + 1));
        if name_eq(&fields[i].0, n) {
            return Some(i);
        }
        i = i + 1;
    }
    assert(fs.skip(i as int).len() == 0);
    None
}

/// The index of the first field named `name`, outside the one-letter names.
fn position_other(fields: &Vec<(Name, String)>, name: &str) -> (r: Option<usize>)
    ensures
        match r {
            Some(i) => i < fields.len() && value_of(fields_view(fields@), NameView::Other(name@))
                == Some(fields@[i as int].1@),
            None => value_of(fields_view(fields@), NameView::Other(name@)) is None,
        },
{
    let ghost fs = fields_view(fields@);
    let ghost n = NameView::Other(name@);
    let mut i: usize = 0;
    assert(fs.skip(0) =~= fs);
    while i < fields.len()
        invariant
            fs == fields_view(fields@),
            n == NameView::Other(name@),
            i <= fields.len(),
            value_of(fs, n) == value_of(fs.skip(i as int), n),
        decreases fields.len() - i,
    {
        assert(fs.skip(i as int)[0] == fs[i as int]);
        assert(fs.skip(i as int).skip(1) =~= fs.skip(i as int + 1));
        if fields[i].0.is_other_eq(name) {
            return Some(i);
        }
        i = i + 1;
    }
    assert(fs.skip(i as int).len() == 0);
    None
}

/// Whether the names of the fields are `a` and `b`, and no other.
fn names_are_exec(fields: &Vec<(Name, String)>, a: &str, b: &str) -> (r: bool)
    ensures
        r == names_are(fields_view(fields@), a@, b@),
{
    let ghost fs = fields_view(fields@);
    if position_other(fields, a).is_none() || position_other(fields, b).is_none() {
        return false;
    }
    let mut i: usize = 0;
    while i < fields.len()
        invariant
            fs == fields_view(fields@),
            i <= fields.len(),
            forall|j: int|
                0 <= j < i ==> #[trigger] fs[j].0 == NameView::Other(a@) || fs[j].0
                    == NameView::Other(b@),
        decreases fields.len() - i,
    {
        if !fields[i].0.is_other_eq(a) && !fields[i].0.is_other_eq(b) {
            assert(fs[i as int].0 == fields@[i as int].0@);
            return false;
        }
        i = i + 1;
    }
    true
}

/// Turns the fields of a record into the event it stands for, if any.
pub fn classify(fields: Vec<(Name, String)>) -> (r: Option<Event>)
    ensures
        event_opt_view(r) == spec_classify(fields_view(fields@)),
{
    let ghost fs = fields_view(fields@);
    if let Some(i) = position_other(&fields, "del") {
        let ev = match read_uniq(fields[i].1.as_str()) {
            Ok(u) => Event::Delete(u),
            Err(error) => Event::Error { error, raw: fields },
        };
        return Some(ev);
    }
    if names_are_exec(&fields, "DESCRIPTOR", "IDXINFO") || names_are_exec(
        &fields,
        "rootGroups",
        "rootGroupsList",
    ) || names_are_exec(&fields, "allGroups", "allGroupsList") {
        return None;
    }
    if position(&fields, &Name::U).is_none() || position(&fields, &Name::I).is_none() || position(
        &fields,
        &Name::M,
    ).is_none() {
        return Some(Event::Error { error: DocError::UnrecognisedDocType, raw: fields });
    }
    match read_doc(&fields) {
        Ok(d) => Some(Event::Doc(d)),
        Err(error) => Some(Event::Error { error, raw: fields }),
    }
}

} // verus!
