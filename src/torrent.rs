//! The torrent descriptor: info dictionary, files, announce URL, info-hash.
use crate::decode::{decode, spec_decode};
use crate::encode::{enc, encode};
use crate::error::{BencodeError, TorrentError};
use crate::value::{
    all_bytes, dict_lookup, BValue, ByteString, Dictionary, Integer, List, Value,
};
use vstd::prelude::*;
use vstd::string::StringSliceAdditionalSpecFns;
use vstd::utf8::{decode_utf8, valid_utf8};

verus! {

/// The SHA-1 digest of `data`.
pub uninterp spec fn sha1_digest(data: Seq<u8>) -> Seq<u8>;

/// Relies on `sha1_smol::Sha1::from(data).digest().bytes()`: the SHA-1 digest
/// of `data`, which is 20 bytes long (`DIGEST_LENGTH`).
#[verifier::external_body]
fn sha1(data: &Vec<u8>) -> (r: Vec<u8>)
    ensures
        r@ == sha1_digest(data@),
        r@.len() == 20,
{
    sha1_smol::Sha1::from(data).digest().bytes().to_vec()
}

/// Relies on `String::from_utf8`: it succeeds exactly on UTF-8 bytes, and the
/// text is what they encode.
#[verifier::external_body]
fn string_from_utf8(bytes: Vec<u8>) -> (r: Option<String>)
    ensures
        r is Some <==> valid_utf8(bytes@),
        r is Some ==> r->0@ == decode_utf8(bytes@),
{
    String::from_utf8(bytes).ok()
}

/// A byte string field: absent, or of another kind, is an error.
pub open spec fn lookup_bytes(d: Seq<(Seq<u8>, BValue)>, k: Seq<u8>) -> Result<Seq<u8>, BencodeError> {
    match dict_lookup(d, k) {
        Some(BValue::Bytes(b)) => Ok(b),
        Some(_) => Err(BencodeError::WrongType),
        None => Err(BencodeError::MissingKey),
    }
}

/// An integer field: absent, or of another kind, is an error.
pub open spec fn lookup_int(d: Seq<(Seq<u8>, BValue)>, k: Seq<u8>) -> Result<int, BencodeError> {
    match dict_lookup(d, k) {
        Some(BValue::Int(x)) => Ok(x),
        Some(_) => Err(BencodeError::WrongType),
        None => Err(BencodeError::MissingKey),
    }
}

/// An optional byte string field: anything but a byte string counts as absent.
pub open spec fn lookup_opt_bytes(d: Seq<(Seq<u8>, BValue)>, k: Seq<u8>) -> Option<Seq<u8>> {
    match dict_lookup(d, k) {
        Some(BValue::Bytes(b)) => Some(b),
        _ => None,
    }
}

/// The model of a file entry.
pub struct FileModel {
    pub length: nat,
    pub path: Seq<Seq<u8>>,
    pub md5sum: Option<Seq<u8>>,
}

/// The model of an info dictionary.
pub struct InfoModel {
    pub files: Seq<FileModel>,
    pub name: Seq<u8>,
    pub piece_length: nat,
    pub pieces: Seq<u8>,
    pub private: Option<bool>,
    pub is_single_file: bool,
}

/// One entry of `files`: a dictionary with a non-negative `length`, a
/// non-empty `path` list of byte strings and an optional `md5sum`.
pub open spec fn file_spec(v: BValue) -> Result<FileModel, TorrentError> {
    match v {
        BValue::Dict(d) => match lookup_int(d, "length".spec_bytes()) {
            Err(e) => Err(TorrentError::Bencode(e)),
            Ok(length) => if length < 0 {
                Err(TorrentError::InvalidLength)
            } else {
                match dict_lookup(d, "path".spec_bytes()) {
                    None => Err(TorrentError::Bencode(BencodeError::MissingKey)),
                    Some(BValue::List(segments)) => if !all_bytes(segments) {
                        Err(TorrentError::Bencode(BencodeError::WrongType))
                    } else if segments.len() == 0 {
                        Err(TorrentError::EmptyPath)
                    } else {
                        Ok(
                            FileModel {
                                length: length as nat,
                                path: segments.map_values(|s: BValue| s->Bytes_0),
                                md5sum: lookup_opt_bytes(d, "md5sum".spec_bytes()),
                            },
                        )
                    },
                    Some(_) => Err(TorrentError::Bencode(BencodeError::WrongType)),
                }
            },
        },
        _ => Err(TorrentError::Bencode(BencodeError::WrongType)),
    }
}

/// The entries of `files` in order; the first bad entry decides the error.
pub open spec fn files_spec(l: Seq<BValue>) -> Result<Seq<FileModel>, TorrentError>
    decreases l.len(),
{
    if l.len() == 0 {
        Ok(Seq::empty())
    } else {
        match files_spec(l.drop_last()) {
            Err(e) => Err(e),
            Ok(fs) => match file_spec(l.last()) {
                Err(e) => Err(e),
                Ok(f) => Ok(fs.push(f)),
            },
        }
    }
}

/// Sum of the file lengths.
pub open spec fn total_of(files: Seq<FileModel>) -> nat
    decreases files.len(),
{
    if files.len() == 0 {
        0
    } else {
        total_of(files.drop_last()) + files.last().length
    }
}

/// An info model from its files and the other fields, once they are read.
pub open spec fn info_from_files(
    files: Result<Seq<FileModel>, TorrentError>,
    name: Seq<u8>,
    piece_length: nat,
    pieces: Seq<u8>,
    private: Option<bool>,
    single: bool,
) -> Result<InfoModel, TorrentError> {
    match files {
        Err(e) => Err(e),
        Ok(files) => if total_of(files) > usize::MAX {
            Err(TorrentError::InvalidLength)
        } else {
            Ok(InfoModel { files, name, piece_length, pieces, private, is_single_file: single })
        },
    }
}

/// The info dictionary, field by field in the order they are read: `name`,
/// `piece length` (positive), `pieces` (a whole number of 20-byte digests),
/// optional `private`, then `length` (one file) or `files` (several); the
/// total length must fit in memory.
pub open spec fn info_spec(d: Seq<(Seq<u8>, BValue)>) -> Result<InfoModel, TorrentError> {
    match lookup_bytes(d, "name".spec_bytes()) {
        Err(e) => Err(TorrentError::Bencode(e)),
        Ok(name) => match lookup_int(d, "piece length".spec_bytes()) {
            Err(e) => Err(TorrentError::Bencode(e)),
            Ok(piece_length) => if piece_length <= 0 {
                Err(TorrentError::InvalidLength)
            } else {
                match lookup_bytes(d, "pieces".spec_bytes()) {
                    Err(e) => Err(TorrentError::Bencode(e)),
                    Ok(pieces) => if pieces.len() % 20 != 0 {
                        Err(TorrentError::InvalidPieces)
                    } else {
                        let private = match dict_lookup(d, "private".spec_bytes()) {
                            Some(BValue::Int(x)) => Some(x != 0),
                            _ => None,
                        };
                        let single = dict_lookup(d, "files".spec_bytes()) is None;
                        let files: Result<Seq<FileModel>, TorrentError> = if single {
                            match lookup_int(d, "length".spec_bytes()) {
                                Err(e) => Err(TorrentError::Bencode(e)),
                                Ok(length) => if length < 0 {
                                    Err(TorrentError::InvalidLength)
                                } else {
                                    Ok(
                                        seq![
                                            FileModel {
                                                length: length as nat,
                                                path: Seq::empty(),
                                                md5sum: lookup_opt_bytes(d, "md5sum".spec_bytes()),
                                            },
                                        ],
                                    )
                                },
                            }
                        } else {
                            match dict_lookup(d, "files".spec_bytes()) {
                                Some(BValue::List(l)) => files_spec(l),
                                _ => Err(TorrentError::Bencode(BencodeError::WrongType)),
                            }
                        };
                        info_from_files(files, name, piece_length as nat, pieces, private, single)
                    }
                }
            },
        },
    }
}

/// Torrent file.
#[derive(Debug)]
pub struct File {
    /// Length in bytes.
    pub length: usize,
    /// (In multi-file mode) Subdirectory names, where the last element is the file name.
    pub path: Vec<Vec<u8>>,
    /// Optional MD5 sum.
    pub md5sum: Option<Vec<u8>>,
}

/// Torrent info.
#[derive(Debug)]
pub struct TorrentInfo {
    /// List of files.
    pub files: Vec<File>,
    /// Suggested name to save the file (or directory if multipile files).
    pub name: Vec<u8>,
    /// Number of bytes in each piece the file is split into.
    pub piece_length: usize,
    /// All SHA1 hashes of pieces in order (i.e. multipiles of 20)
    pub pieces: Vec<u8>,
    /// Optional private flag.
    pub private: Option<bool>,
    /// Whether the [`Torrent`] is for a single or multipile files.
    pub is_single_file: bool,
}

impl View for File {
    type V = FileModel;

    open spec fn view(&self) -> FileModel {
        FileModel {
            length: self.length as nat,
            path: self.path@.map_values(|p: Vec<u8>| p@),
            md5sum: match self.md5sum {
                Some(m) => Some(m@),
                None => None,
            },
        }
    }
}

impl View for TorrentInfo {
    type V = InfoModel;

    open spec fn view(&self) -> InfoModel {
        InfoModel {
            files: self.files@.map_values(|f: File| f@),
            name: self.name@,
            piece_length: self.piece_length as nat,
            pieces: self.pieces@,
            private: self.private,
            is_single_file: self.is_single_file,
        }
    }
}

fn get_bytes(d: &Dictionary, key: &str) -> (r: Result<Vec<u8>, BencodeError>)
    ensures
        match lookup_bytes(d@, key.spec_bytes()) {
            Ok(b) => r is Ok && r->Ok_0@ == b,
            Err(e) => r is Err && r->Err_0 == e,
        },
{
    match d.try_get_as::<ByteString>(key) {
        Ok(v) => Ok(v.0),
        Err(e) => Err(e),
    }
}

fn get_int(d: &Dictionary, key: &str) -> (r: Result<isize, BencodeError>)
    ensures
        match lookup_int(d@, key.spec_bytes()) {
            Ok(x) => r == Ok::<isize, BencodeError>(x as isize) && isize::MIN <= x <= isize::MAX,
            Err(e) => r == Err::<isize, BencodeError>(e),
        },
{
    match d.try_get_as::<Integer>(key) {
        Ok(v) => Ok(v.0),
        Err(e) => Err(e),
    }
}

fn get_opt_bytes(d: &Dictionary, key: &str) -> (r: Option<Vec<u8>>)
    ensures
        match lookup_opt_bytes(d@, key.spec_bytes()) {
            Some(b) => r is Some && r->0@ == b,
            None => r is None,
        },
{
    match d.try_get_as::<ByteString>(key) {
        Ok(v) => Some(v.0),
        Err(_) => None,
    }
}

impl File {
    /// Read one entry of a multi-file `files` list.
    fn from_value(v: &Value) -> (r: Result<File, TorrentError>)
        ensures
            match file_spec(v@) {
                Ok(f) => r is Ok && r->Ok_0@ == f,
                Err(e) => r is Err && r->Err_0 == e,
            },
    {
        let d = match v {
            Value::Dictionary(d) => d,
            _ => return Err(TorrentError::Bencode(BencodeError::WrongType)),
        };
        let length = match get_int(d, "length") {
            Ok(x) => x,
            Err(e) => return Err(TorrentError::Bencode(e)),
        };
        if length < 0 {
            return Err(TorrentError::InvalidLength);
        }
        let segments = match d.try_get("path") {
            Ok(p) => p,
            Err(e) => return Err(TorrentError::Bencode(e)),
        };
        let path = match segments.clone().as_list_of_byte_strings() {
            Ok(path) => path,
            Err(e) => return Err(TorrentError::Bencode(e)),
        };
        if path.len() == 0 {
            return Err(TorrentError::EmptyPath);
        }
        let md5sum = get_opt_bytes(d, "md5sum");
        let f = File { length: length as usize, path, md5sum };
        proof {
            let segs = segments@->List_0;
            assert(f@.path =~= segs.map_values(|s: BValue| s->Bytes_0));
        }
        Ok(f)
    }
}

proof fn lemma_total_push(files: Seq<FileModel>, f: FileModel)
    ensures
        total_of(files.push(f)) == total_of(files) + f.length,
{
    assert(files.push(f).drop_last() =~= files);
}

impl TorrentInfo {
    /// Create [`TorrentInfo`] from bencoded dictionary.
    pub fn from_dictionary(info: Dictionary) -> (r: Result<Self, TorrentError>)
        ensures
            match info_spec(info@) {
                Ok(m) => r is Ok && r->Ok_0@ == m,
                Err(e) => r is Err && r->Err_0 == e,
            },
    {
        let name = match get_bytes(&info, "name") {
            Ok(v) => v,
            Err(e) => return Err(TorrentError::Bencode(e)),
        };
        let piece_length = match get_int(&info, "piece length") {
            Ok(v) => v,
            Err(e) => return Err(TorrentError::Bencode(e)),
        };
        if piece_length <= 0 {
            return Err(TorrentError::InvalidLength);
        }
        let pieces = match get_bytes(&info, "pieces") {
            Ok(v) => v,
            Err(e) => return Err(TorrentError::Bencode(e)),
        };
        if pieces.len() % 20 != 0 {
            return Err(TorrentError::InvalidPieces);
        }
        let private = match info.try_get_as::<Integer>("private") {
            Ok(v) => Some(v.0 != 0),
            Err(_) => None,
        };
        let is_single_file = !info.has("files");
        let mut files: Vec<File> = Vec::new();
        let mut total: usize = 0;
        if is_single_file {
            let length = match get_int(&info, "length") {
                Ok(v) => v,
                Err(e) => return Err(TorrentError::Bencode(e)),
            };
            if length < 0 {
                return Err(TorrentError::InvalidLength);
            }
            let md5sum = get_opt_bytes(&info, "md5sum");
            files.push(File { length: length as usize, path: Vec::new(), md5sum });
            total = length as usize;
            proof {
                let fm = files@[0]@;
                assert(fm.path =~= Seq::<Seq<u8>>::empty());
                lemma_total_push(Seq::empty(), fm);
                assert(Seq::<FileModel>::empty().push(fm) =~= files@.map_values(|f: File| f@));
            }
        } else {
            let entries = match info.try_get_as::<List>("files") {
                Ok(l) => l,
                Err(_) => return Err(TorrentError::Bencode(BencodeError::WrongType)),
            };
            let ghost l = entries@;
            proof {
                crate::value::lemma_values_view(entries.0@);
            }
            let ghost spec_result = info_spec(info@);
            assert(spec_result == info_from_files(files_spec(l), name@, piece_length as nat, pieces@, private, false));
            let mut i: usize = 0;
            let mut overflow = false;
            assert(l.subrange(0, 0) =~= Seq::<BValue>::empty());
            assert(files@.map_values(|f: File| f@) =~= Seq::<FileModel>::empty());
            while i < entries.0.len()
                invariant
                    i <= entries.0@.len(),
                    l == entries@,
                    spec_result == info_spec(info@),
                    spec_result == info_from_files(files_spec(l), name@, piece_length as nat, pieces@, private, false),
                    !is_single_file,
                    l.len() == entries.0@.len(),
                    forall|j: int| 0 <= j < l.len() ==> #[trigger] l[j] == entries.0@[j]@,
                    files@.len() == i,
                    files_spec(l.subrange(0, i as int)) == Ok::<Seq<FileModel>, TorrentError>(
                        files@.map_values(|f: File| f@),
                    ),
                    overflow ==> total_of(files@.map_values(|f: File| f@)) > usize::MAX,
                    !overflow ==> total == total_of(files@.map_values(|f: File| f@)),
                decreases entries.0@.len() - i,
            {
                let ghost pre = l.subrange(0, i as int);
                assert(l.subrange(0, i + 1).drop_last() =~= pre);
                assert(l.subrange(0, i + 1).last() == entries.0@[i as int]@);
                let f = match File::from_value(&entries.0[i]) {
                    Ok(f) => f,
                    Err(e) => {
                        proof {
                            assert(file_spec(l.subrange(0, i + 1).last()) == Err::<FileModel, TorrentError>(e));
                            assert(files_spec(l.subrange(0, i + 1)) == Err::<Seq<FileModel>, TorrentError>(e));
                            lemma_files_error_persists(l, i as int + 1);
                            assert(files_spec(l) == Err::<Seq<FileModel>, TorrentError>(e));
                        }
                        return Err(e);
                    },
                };
                let ghost old_models = files@.map_values(|f: File| f@);
                let ghost old_files = files@;
                let ghost fv = f@;
                proof {
                    lemma_total_push(old_models, fv);
                }
                if overflow || f.length > usize::MAX - total {
                    overflow = true;
                } else {
                    total = total + f.length;
                }
                files.push(f);
                proof {
                    assert(files@ == old_files.push(files@[i as int]));
                    assert(files@.map_values(|f: File| f@) =~= old_models.push(fv));
                }
                i = i + 1;
            }
            if overflow {
                assert(l.subrange(0, i as int) =~= l);
                return Err(TorrentError::InvalidLength);
            }
            assert(l.subrange(0, i as int) =~= l);
        }
        let r = TorrentInfo { files, name, piece_length: piece_length as usize, pieces, private, is_single_file };
        Ok(r)
    }
}

proof fn lemma_files_error_persists(l: Seq<BValue>, k: int)
    requires
        0 <= k <= l.len(),
        files_spec(l.subrange(0, k)) is Err,
    ensures
        files_spec(l) == files_spec(l.subrange(0, k)),
    decreases l.len() - k,
{
    if k < l.len() {
        assert(l.subrange(0, k + 1).drop_last() =~= l.subrange(0, k));
        lemma_files_error_persists(l, k + 1);
    } else {
        assert(l.subrange(0, k) =~= l);
    }
}

/// The model of a torrent.
pub struct TorrentModel {
    pub info: InfoModel,
    pub announce: Seq<char>,
    pub info_hash: Seq<u8>,
}

/// A torrent described by the dictionary `d`, whose info-hash is `hash`:
/// the info dictionary is read first, then the UTF-8 `announce` URL.
pub open spec fn torrent_spec(d: Seq<(Seq<u8>, BValue)>, hash: Seq<u8>) -> Result<TorrentModel, TorrentError> {
    match dict_lookup(d, "info".spec_bytes()) {
        Some(BValue::Dict(info)) => match info_spec(info) {
            Err(e) => Err(e),
            Ok(m) => match lookup_bytes(d, "announce".spec_bytes()) {
                Err(e) => Err(TorrentError::Bencode(e)),
                Ok(a) => if valid_utf8(a) {
                    Ok(TorrentModel { info: m, announce: decode_utf8(a), info_hash: hash })
                } else {
                    Err(TorrentError::InvalidAnnounce)
                },
            },
        },
        Some(_) => Err(TorrentError::Bencode(BencodeError::WrongType)),
        None => Err(TorrentError::Bencode(BencodeError::MissingKey)),
    }
}

/// The info-hash of a descriptor: the SHA-1 digest of the canonical encoding
/// of its info dictionary.
pub open spec fn spec_info_hash(contents: Seq<u8>) -> Option<Seq<u8>> {
    match spec_decode(contents) {
        Some(BValue::Dict(d)) => match dict_lookup(d, "info".spec_bytes()) {
            Some(BValue::Dict(info)) => Some(sha1_digest(enc(BValue::Dict(info)))),
            _ => None,
        },
        _ => None,
    }
}

/// What [`Torrent::from_bcode`] makes of a descriptor.
pub open spec fn spec_parse_torrent(contents: Seq<u8>) -> Result<TorrentModel, TorrentError> {
    match spec_decode(contents) {
        None => Err(TorrentError::Bencode(BencodeError::Malformed)),
        Some(BValue::Dict(d)) => match spec_info_hash(contents) {
            Some(h) => torrent_spec(d, h),
            None => torrent_spec(d, Seq::empty()),
        },
        Some(_) => Err(TorrentError::Bencode(BencodeError::WrongType)),
    }
}

/// Torrent.
#[derive(Debug)]
pub struct Torrent {
    /// Torrent info.
    pub info: TorrentInfo,
    /// Tracker URL.
    pub announce: String,
    /// Optional announce list.
    pub announce_list: Option<Vec<Vec<String>>>,
    /// Optional creation date.
    pub creation_date: Option<usize>,
    /// Optional comment.
    pub comment: Option<String>,
    /// Optional creator name.
    pub created_by: Option<String>,
    /// Optional encoding type.
    pub encoding: Option<String>,
    /// SHA1 hash of info dictionary.
    pub info_hash: Vec<u8>,
    /// Total length of the content: the sum of the file lengths.
    pub length: usize,
}

impl Torrent {
    /// The model of this torrent.
    pub open spec fn model(&self) -> TorrentModel {
        TorrentModel { info: self.info@, announce: self.announce@, info_hash: self.info_hash@ }
    }

    /// The total content length.
    pub open spec fn spec_length(&self) -> nat {
        self.length as nat
    }

    /// Build a torrent from its top-level dictionary and the info-hash
    /// computed for it.
    pub fn from_parts(dictionary: &Dictionary, info_hash: Vec<u8>) -> (r: Result<Self, TorrentError>)
        ensures
            match torrent_spec(dictionary@, info_hash@) {
                Ok(m) => r is Ok && r->Ok_0.model() == m && r->Ok_0.info@ == m.info && r->Ok_0.announce@ == m.announce
                    && r->Ok_0.info_hash@ == m.info_hash && r->Ok_0.length == total_of(m.info.files),
                Err(e) => r is Err && r->Err_0 == e,
            },
    {
        let info_dictionary = match dictionary.try_get_as::<Dictionary>("info") {
            Ok(d) => d,
            Err(e) => return Err(TorrentError::Bencode(e)),
        };
        let info = match TorrentInfo::from_dictionary(info_dictionary) {
            Ok(info) => info,
            Err(e) => return Err(e),
        };
        let announce_bytes = match get_bytes(dictionary, "announce") {
            Ok(b) => b,
            Err(e) => return Err(TorrentError::Bencode(e)),
        };
        let announce = match string_from_utf8(announce_bytes) {
            Some(s) => s,
            None => return Err(TorrentError::InvalidAnnounce),
        };
        let length = Self::sum_lengths(&info);
        Ok(
            Torrent {
                info,
                announce,
                announce_list: None,
                creation_date: None,
                comment: None,
                created_by: None,
                encoding: None,
                info_hash,
                length,
            },
        )
    }

    fn sum_lengths(info: &TorrentInfo) -> (r: usize)
        requires
            total_of(info@.files) <= usize::MAX,
        ensures
            r == total_of(info@.files),
    {
        let ghost models = info@.files;
        let mut total: usize = 0;
        let mut i: usize = 0;
        while i < info.files.len()
            invariant
                i <= info.files@.len(),
                models == info.files@.map_values(|f: File| f@),
                total_of(models) <= usize::MAX,
                total == total_of(models.subrange(0, i as int)),
            decreases info.files@.len() - i,
        {
            proof {
                let p = models.subrange(0, i as int);
                assert(models.subrange(0, i + 1) =~= p.push(models[i as int]));
                lemma_total_push(p, models[i as int]);
                lemma_total_prefix(models, i as int + 1);
            }
            total = total + info.files[i].length;
            i = i + 1;
        }
        assert(models.subrange(0, i as int) =~= models);
        total
    }

    /// Create [`Torrent`] from bencoded bytes.
    pub fn from_bcode(contents: &[u8]) -> (r: Result<Self, TorrentError>)
        ensures
            match spec_parse_torrent(contents@) {
                Ok(m) => r is Ok && r->Ok_0.model() == m && r->Ok_0.info@ == m.info && r->Ok_0.announce@ == m.announce
                    && r->Ok_0.info_hash@ == m.info_hash && r->Ok_0.length == total_of(m.info.files),
                Err(e) => r is Err && r->Err_0 == e,
            },
    {
        let dictionary = match decode(contents) {
            Ok(v) => match v.try_as::<Dictionary>() {
                Ok(d) => d,
                Err(e) => return Err(TorrentError::Bencode(e)),
            },
            Err(e) => return Err(TorrentError::Bencode(e)),
        };
        let info_hash = match dictionary.try_get("info") {
            Ok(info) => match info {
                Value::Dictionary(_) => sha1(&encode(info)),
                _ => Vec::new(),
            },
            Err(_) => Vec::new(),
        };
        Self::from_parts(&dictionary, info_hash)
    }

    /// Create [`Torrent`] from bencoded bytes (the same as [`Torrent::from_bcode`]).
    pub fn parse(contents: &[u8]) -> (r: Result<Self, TorrentError>)
        ensures
            match spec_parse_torrent(contents@) {
                Ok(m) => r is Ok && r->Ok_0.model() == m && r->Ok_0.info@ == m.info && r->Ok_0.announce@ == m.announce
                    && r->Ok_0.info_hash@ == m.info_hash && r->Ok_0.length == total_of(m.info.files),
                Err(e) => r is Err && r->Err_0 == e,
            },
    {
        Self::from_bcode(contents)
    }

    /// Get `info_hash`.
    pub fn get_hash(&self) -> (r: &[u8])
        ensures
            r@ == self.model().info_hash,
    {
        self.info_hash.as_slice()
    }

    /// A copy of the tracker URL.
    pub fn announce_url(&self) -> (r: String)
        ensures
            r@ == self.model().announce,
    {
        self.announce.clone()
    }

    /// Bytes per piece.
    pub fn piece_length(&self) -> (r: usize)
        ensures
            r == self.model().info.piece_length,
    {
        self.info.piece_length
    }

    /// Number of pieces: one per 20-byte digest.
    pub fn piece_count(&self) -> (r: usize)
        ensures
            r == self.model().info.pieces.len() / 20,
    {
        self.info.pieces.len() / 20
    }

    /// Length of the bitfield: one bit per piece, rounded up to whole bytes.
    pub fn get_bitfield_length(&self) -> (r: usize)
        ensures
            r == (self.model().info.pieces.len() / 20 + 7) / 8,
    {
        (self.info.pieces.len() / 20 + 7) / 8
    }

    /// Total content length: the sum of the file lengths.
    pub fn total_length(&self) -> (r: usize)
        ensures
            r == self.spec_length(),
    {
        self.length
    }

    /// Get total amount uploaded (this client does not upload).
    pub fn get_uploaded(&self) -> (r: usize)
        ensures
            r == 0,
    {
        0
    }

    /// Get total amount downloaded and checked (no resume: always zero at announce time).
    pub fn get_downloaded(&self) -> (r: usize)
        ensures
            r == 0,
    {
        0
    }

    /// Get total amount left.
    pub fn get_left(&self) -> (r: usize)
        ensures
            r == self.spec_length(),
    {
        self.length - self.get_downloaded()
    }
}

proof fn lemma_total_prefix(files: Seq<FileModel>, k: int)
    requires
        0 <= k <= files.len(),
    ensures
        total_of(files.subrange(0, k)) <= total_of(files),
    decreases files.len() - k,
{
    if k < files.len() {
        lemma_total_prefix(files, k + 1);
        assert(files.subrange(0, k + 1).drop_last() =~= files.subrange(0, k));
    } else {
        assert(files.subrange(0, k) =~= files);
    }
}

} // verus!
