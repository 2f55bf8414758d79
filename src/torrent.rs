use vstd::prelude::*;

use crate::bencode::{
    find_key, item_pos, lemma_item_pos_within, lemma_list_items_exist, lemma_list_len_unique,
    lemma_value_end_bounds, list_len_is, lookup, read_str_span, read_uint, skip_value, str_span,
    uint_at, uint_value, value_end,
};
use crate::error::TorrentError;
use crate::hashes::{hash_bytes, Hashes};

verus! {

/// One file of a multi-file torrent.
#[derive(Debug, Clone)]
pub struct File {
    /// The file's size in bytes.
    pub length: usize,
    /// The path of the file, one byte string per component.
    pub path: Vec<Vec<u8>>,
}

/// How the content is laid out on disk: exactly one of the two forms.
#[derive(Debug, Clone)]
pub enum Keys {
    SingleFile { length: usize },
    MultiFile { files: Vec<File> },
}

/// The `info` dictionary of a metainfo file.
#[derive(Debug, Clone)]
pub struct Info {
    /// The suggested name to save the file (or directory) as.
    pub name: Vec<u8>,
    /// The number of bytes in each piece but possibly the last.
    pub plength: usize,
    /// The SHA-1 hash of each piece, in order.
    pub pieces: Hashes,
    /// The single-file or multi-file layout.
    pub keys: Keys,
}

/// A parsed metainfo (`.torrent`) file.
#[derive(Debug, Clone)]
pub struct Torrent {
    /// The URL of the tracker.
    pub announce: Vec<u8>,
    pub info: Info,
}

/// The sum of the lengths of `files`, in order.
pub open spec fn sum_lengths(files: Seq<File>) -> int
    decreases files.len(),
{
    if files.len() == 0 {
        0
    } else {
        sum_lengths(files.drop_last()) + files.last().length
    }
}

/// The total content length of a layout.
pub open spec fn keys_length(keys: Keys) -> int {
    match keys {
        Keys::SingleFile { length } => length as int,
        Keys::MultiFile { files } => sum_lengths(files@),
    }
}

/// The number of pieces that `total` bytes take at `plength` bytes a piece:
/// the quotient rounded up.
pub open spec fn piece_count_spec(total: int, plength: int) -> int
    recommends
        plength > 0,
{
    if total % plength == 0 {
        total / plength
    } else {
        total / plength + 1
    }
}

/// The length of piece `i` when the content has `total` bytes.
pub open spec fn piece_length_spec(total: int, plength: int, i: int) -> int {
    if plength <= total - plength * i {
        plength
    } else {
        total - plength * i
    }
}

impl Torrent {
    /// The total content length.
    pub open spec fn length_spec(&self) -> int {
        keys_length(self.info.keys)
    }

    /// What every parsed torrent satisfies: pieces have a positive length,
    /// and the total length and the hash bytes fit in a `usize`.
    pub open spec fn wf(&self) -> bool {
        &&& self.info.plength > 0
        &&& self.length_spec() <= usize::MAX
        &&& 20 * self.info.pieces.0@.len() <= usize::MAX
    }

    /// The number of pieces.
    pub open spec fn piece_count(&self) -> int {
        piece_count_spec(self.length_spec(), self.info.plength as int)
    }

    /// The number of pieces: the total length divided by the piece length,
    /// rounded up.
    pub fn num_pieces(&self) -> (r: usize)
        requires
            self.wf(),
        ensures
            r == self.piece_count(),
    {
        let total: usize = self.length();
        let plength: usize = self.info.plength;
        if total % plength == 0 {
            total / plength
        } else {
            proof {
                if plength >= 2 {
                    vstd::arithmetic::div_mod::lemma_div_is_ordered_by_denominator(
                        total as int,
                        2,
                        plength as int,
                    );
                }
            }
            total / plength + 1
        }
    }

    /// The total content length: the single file's length, or the sum of
    /// the lengths of all files.
    pub fn length(&self) -> (r: usize)
        requires
            self.wf(),
        ensures
            r == self.length_spec(),
    {
        match &self.info.keys {
            Keys::SingleFile { length } => *length,
            Keys::MultiFile { files } => {
                let mut sum: usize = 0;
                let mut i: usize = 0;
                while i < files.len()
                    invariant
                        i <= files@.len(),
                        sum == sum_lengths(files@.take(i as int)),
                        sum_lengths(files@) <= usize::MAX,
                    decreases files@.len() - i,
                {
                    proof {
                        assert(files@.take(i + 1).drop_last() =~= files@.take(i as int));
                        lemma_sum_lengths_prefix(files@, i + 1);
                    }
                    sum = sum + files[i].length;
                    i += 1;
                }
                assert(files@.take(files@.len() as int) =~= files@);
                sum
            },
        }
    }
}

/// The sum over a prefix never exceeds the sum over the whole sequence.
pub proof fn lemma_sum_lengths_prefix(files: Seq<File>, n: int)
    requires
        0 <= n <= files.len(),
    ensures
        sum_lengths(files.take(n)) <= sum_lengths(files),
    decreases files.len(),
{
    if n < files.len() {
        assert(files.drop_last().take(n) =~= files.take(n));
        lemma_sum_lengths_prefix(files.drop_last(), n);
    } else {
        assert(files.take(n) =~= files);
    }
}

/// The key `announce`, in ASCII.
pub open spec fn key_announce() -> Seq<u8> {
    seq![97u8, 110, 110, 111, 117, 110, 99, 101]
}

/// The key `info`, in ASCII.
pub open spec fn key_info() -> Seq<u8> {
    seq![105u8, 110, 102, 111]
}

/// The key `name`, in ASCII.
pub open spec fn key_name() -> Seq<u8> {
    seq![110u8, 97, 109, 101]
}

/// The key `piece length`, in ASCII.
pub open spec fn key_piece_length() -> Seq<u8> {
    seq![112u8, 105, 101, 99, 101, 32, 108, 101, 110, 103, 116, 104]
}

/// The key `pieces`, in ASCII.
pub open spec fn key_pieces() -> Seq<u8> {
    seq![112u8, 105, 101, 99, 101, 115]
}

/// The key `length`, in ASCII.
pub open spec fn key_length() -> Seq<u8> {
    seq![108u8, 101, 110, 103, 116, 104]
}

/// The key `files`, in ASCII.
pub open spec fn key_files() -> Seq<u8> {
    seq![102u8, 105, 108, 101, 115]
}

/// The key `path`, in ASCII.
pub open spec fn key_path() -> Seq<u8> {
    seq![112u8, 97, 116, 104]
}

/// The bytes hold one bencoded dictionary and nothing after it.
pub open spec fn is_dict_document(b: Seq<u8>) -> bool {
    &&& b.len() > 0
    &&& b[0] == 100
    &&& value_end(b, 0) == Some(b.len() as int)
}

/// The position of a top-level value.
pub open spec fn top_field(b: Seq<u8>, key: Seq<u8>) -> Option<int> {
    lookup(b, 1, key)
}

/// The position of a value in the `info` dictionary.
pub open spec fn info_field(b: Seq<u8>, key: Seq<u8>) -> Option<int> {
    match top_field(b, key_info()) {
        Some(i) => lookup(b, i + 1, key),
        None => None,
    }
}

/// The contents of the byte string at `p`.
pub open spec fn str_at(b: Seq<u8>, p: int) -> Seq<u8> {
    let span = str_span(b, p)->0;
    b.subrange(span.0, span.1)
}

/// The piece length that the info dictionary gives.
pub open spec fn plength_of(b: Seq<u8>) -> int {
    uint_value(b, info_field(b, key_piece_length())->0)
}

/// The number of hashes in the info dictionary's `pieces`.
pub open spec fn hash_count(b: Seq<u8>) -> int {
    str_at(b, info_field(b, key_pieces())->0).len() as int / 20
}

/// The error that the checks made before the layout's contents are read
/// give, in the order in which they are made.
pub open spec fn header_error(b: Seq<u8>) -> Option<TorrentError> {
    if !is_dict_document(b) {
        Some(TorrentError::MalformedEncoding)
    } else if top_field(b, key_announce()) is None || top_field(b, key_info()) is None {
        Some(TorrentError::MissingField)
    } else if !(top_field(b, key_info())->0 < b.len() && b[top_field(b, key_info())->0] == 100) {
        Some(TorrentError::MalformedEncoding)
    } else if info_field(b, key_name()) is None || info_field(b, key_piece_length()) is None
        || info_field(b, key_pieces()) is None {
        Some(TorrentError::MissingField)
    } else if (info_field(b, key_length()) is Some) == (info_field(b, key_files()) is Some) {
        Some(TorrentError::LayoutConflict)
    } else if str_span(b, top_field(b, key_announce())->0) is None || str_span(
        b,
        info_field(b, key_name())->0,
    ) is None || uint_at(b, info_field(b, key_piece_length())->0) is None || uint_value(b, info_field(b, key_piece_length())->0) == 0 || str_span(b, info_field(b, key_pieces())->0) is None {
        Some(TorrentError::MalformedEncoding)
    } else if str_at(b, info_field(b, key_pieces())->0).len() % 20 != 0 {
        Some(TorrentError::InvalidLength)
    } else {
        None
    }
}

/// The list whose items start at `p` holds byte strings with the contents
/// `parts`.
pub open spec fn strings_match(b: Seq<u8>, p: int, parts: Seq<Vec<u8>>) -> bool {
    &&& list_len_is(b, p, parts.len())
    &&& forall|j: int|
        0 <= j < parts.len() ==> string_matches(b, item_pos(b, p, j as nat)->0, #[trigger] parts[j])
}

/// The byte string at `q` has the contents `part`.
pub open spec fn string_matches(b: Seq<u8>, q: int, part: Vec<u8>) -> bool {
    &&& str_span(b, q) is Some
    &&& part@ == str_at(b, q)
}

/// The dictionary at `q` describes file `f`.
pub open spec fn file_matches(b: Seq<u8>, q: int, f: File) -> bool {
    &&& 0 <= q < b.len()
    &&& b[q] == 100
    &&& lookup(b, q + 1, key_length()) is Some
    &&& uint_at(b, lookup(b, q + 1, key_length())->0) is Some
    &&& f.length == uint_value(b, lookup(b, q + 1, key_length())->0)
    &&& lookup(b, q + 1, key_path()) is Some
    &&& lookup(b, q + 1, key_path())->0 < b.len()
    &&& b[lookup(b, q + 1, key_path())->0] == 108
    &&& strings_match(b, lookup(b, q + 1, key_path())->0 + 1, f.path@)
}

/// The list at `p` holds one dictionary for each of `files`, in order.
pub open spec fn files_match(b: Seq<u8>, p: int, files: Seq<File>) -> bool {
    &&& 0 <= p < b.len()
    &&& b[p] == 108
    &&& list_len_is(b, p + 1, files.len())
    &&& forall|k: int|
        0 <= k < files.len() ==> file_matches(b, item_pos(b, p + 1, k as nat)->0, #[trigger] files[k])
}

/// `t` holds what the metainfo bytes `b` say.
pub open spec fn parsed_from(b: Seq<u8>, t: Torrent) -> bool {
    &&& header_error(b) is None
    &&& t.announce@ == str_at(b, top_field(b, key_announce())->0)
    &&& t.info.name@ == str_at(b, info_field(b, key_name())->0)
    &&& t.info.plength == uint_value(b, info_field(b, key_piece_length())->0)
    &&& hash_bytes(t.info.pieces.0@) == str_at(b, info_field(b, key_pieces())->0)
    &&& match t.info.keys {
        Keys::SingleFile { length } => {
            &&& info_field(b, key_length()) is Some
            &&& uint_at(b, info_field(b, key_length())->0) is Some
            &&& length == uint_value(b, info_field(b, key_length())->0)
        },
        Keys::MultiFile { files } => {
            &&& info_field(b, key_files()) is Some
            &&& files_match(b, info_field(b, key_files())->0, files@)
        },
    }
}

/// Where the walk over a list stops early, no list of byte strings matches.
proof fn lemma_strings_stop(b: Seq<u8>, p: int, k: nat, q: int)
    requires
        item_pos(b, p, k) == Some(q),
        q >= b.len() || (0 <= q && b[q] != 101 && (str_span(b, q) is None || value_end(b, q) is None)),
    ensures
        forall|parts: Seq<Vec<u8>>| !strings_match(b, p, parts),
{
    assert forall|parts: Seq<Vec<u8>>| !strings_match(b, p, parts) by {
        if strings_match(b, p, parts) {
            lemma_item_pos_within(b, p, parts.len(), k);
            if k < parts.len() {
                lemma_list_items_exist(b, p, parts.len(), k);
                assert(string_matches(b, item_pos(b, p, k)->0, parts[k as int]));
            }
        }
    }
}

/// Where the walk over a list of files stops early, no file list matches.
proof fn lemma_files_stop(b: Seq<u8>, p: int, k: nat, q: int)
    requires
        0 <= p < b.len(),
        item_pos(b, p + 1, k) == Some(q),
        q >= b.len() || (0 <= q && b[q] != 101 && (value_end(b, q) is None || forall|f: File|
            !file_matches(b, q, f))),
    ensures
        forall|fs: Seq<File>| !files_match(b, p, fs),
{
    assert forall|fs: Seq<File>| !files_match(b, p, fs) by {
        if files_match(b, p, fs) {
            lemma_item_pos_within(b, p + 1, fs.len(), k);
            if k < fs.len() {
                lemma_list_items_exist(b, p + 1, fs.len(), k);
                assert(file_matches(b, item_pos(b, p + 1, k)->0, fs[k as int]));
            }
        }
    }
}

proof fn lemma_sum_lengths_equal(f1: Seq<File>, f2: Seq<File>)
    requires
        f1.len() == f2.len(),
        forall|i: int| 0 <= i < f1.len() ==> f1[i].length == f2[i].length,
    ensures
        sum_lengths(f1) == sum_lengths(f2),
    decreases f1.len(),
{
    if f1.len() > 0 {
        lemma_sum_lengths_equal(f1.drop_last(), f2.drop_last());
    }
}

/// Two file lists read from the same bytes have the same total length.
proof fn lemma_files_sum_unique(b: Seq<u8>, p: int, f1: Seq<File>, f2: Seq<File>)
    requires
        files_match(b, p, f1),
        files_match(b, p, f2),
    ensures
        sum_lengths(f1) == sum_lengths(f2),
{
    lemma_list_len_unique(b, p + 1, f1.len(), f2.len());
    assert forall|i: int| 0 <= i < f1.len() implies f1[i].length == f2[i].length by {
        assert(file_matches(b, item_pos(b, p + 1, i as nat)->0, f1[i]));
        assert(file_matches(b, item_pos(b, p + 1, i as nat)->0, f2[i]));
    }
    lemma_sum_lengths_equal(f1, f2);
}

/// Copies `b[start..end]`.
fn copy_span(b: &[u8], start: usize, end: usize) -> (r: Vec<u8>)
    requires
        start <= end <= b@.len(),
    ensures
        r@ == b@.subrange(start as int, end as int),
{
    let mut out: Vec<u8> = Vec::new();
    let mut i: usize = start;
    while i < end
        invariant
            start <= i <= end,
            end <= b@.len(),
            out@ == b@.subrange(start as int, i as int),
        decreases end - i,
    {
        out.push(b[i]);
        assert(out@ =~= b@.subrange(start as int, i + 1));
        i += 1;
    }
    out
}

/// Reads the contents of the byte string at `p`.
fn read_string(b: &[u8], p: usize) -> (r: Option<Vec<u8>>)
    ensures
        r is Some <==> str_span(b@, p as int) is Some,
        r matches Some(v) ==> v@ == str_at(b@, p as int) && v@.len() <= b@.len(),
{
    match read_str_span(b, p) {
        Some(span) => Some(copy_span(b, span.0, span.1)),
        None => None,
    }
}

/// Reads the byte strings of the list whose items start at `p`.
fn parse_strings(b: &[u8], p: usize) -> (r: Option<Vec<Vec<u8>>>)
    ensures
        r matches Some(parts) ==> strings_match(b@, p as int, parts@),
        r is None ==> forall|parts: Seq<Vec<u8>>| !strings_match(b@, p as int, parts),
{
    let mut out: Vec<Vec<u8>> = Vec::new();
    let mut q: usize = p;
    while q < b.len() && b[q] != 101
        invariant
            item_pos(b@, p as int, out@.len()) == Some(q as int),
            forall|j: int|
                0 <= j < out@.len() ==> string_matches(
                    b@,
                    item_pos(b@, p as int, j as nat)->0,
                    #[trigger] out@[j],
                ),
        decreases b@.len() - q,
    {
        let part: Vec<u8> = match read_string(b, q) {
            Some(v) => v,
            None => {
                proof {
                    lemma_strings_stop(b@, p as int, out@.len(), q as int);
                }
                return None;
            },
        };
        let next: usize = match skip_value(b, q) {
            Some(n) => n,
            None => {
                proof {
                    lemma_strings_stop(b@, p as int, out@.len(), q as int);
                }
                return None;
            },
        };
        proof {
            lemma_value_end_bounds(b@, q as int);
        }
        if next <= q || next > b.len() {
            return None;
        }
        proof {
            assert(item_pos(b@, p as int, (out@.len() + 1) as nat) == Some(next as int));
        }
        let ghost old_out = out@;
        out.push(part);
        proof {
            assert forall|j: int| 0 <= j < out@.len() implies string_matches(
                b@,
                item_pos(b@, p as int, j as nat)->0,
                #[trigger] out@[j],
            ) by {
                if j < old_out.len() {
                    assert(out@[j] == old_out[j]);
                } else {
                    assert(item_pos(b@, p as int, j as nat) == Some(q as int));
                }
            }
        }
        q = next;
    }
    if q >= b.len() {
        proof {
            lemma_strings_stop(b@, p as int, out@.len(), q as int);
        }
        return None;
    }
    Some(out)
}

/// Reads the file dictionary at `q`.
fn parse_file(b: &[u8], q: usize) -> (r: Option<File>)
    ensures
        r matches Some(f) ==> file_matches(b@, q as int, f),
        r is None ==> forall|f: File| !file_matches(b@, q as int, f),
{
    if q >= b.len() || b[q] != 100 {
        return None;
    }
    let key_len: [u8; 6] = [108, 101, 110, 103, 116, 104];
    let key_pth: [u8; 4] = [112, 97, 116, 104];
    assert(key_len@ =~= key_length());
    assert(key_pth@ =~= key_path());
    let lp: usize = match find_key(b, q + 1, key_len.as_slice()) {
        Some(v) => v,
        None => {
            return None;
        },
    };
    let length: usize = match read_uint(b, lp) {
        Some(v) => v.0,
        None => {
            return None;
        },
    };
    let pp: usize = match find_key(b, q + 1, key_pth.as_slice()) {
        Some(v) => v,
        None => {
            return None;
        },
    };
    if pp >= b.len() || b[pp] != 108 {
        return None;
    }
    match parse_strings(b, pp + 1) {
        Some(path) => Some(File { length, path }),
        None => None,
    }
}

/// Reads the list of file dictionaries at `p`.
fn parse_files(b: &[u8], p: usize) -> (r: Option<Vec<File>>)
    ensures
        r matches Some(files) ==> files_match(b@, p as int, files@),
        r is None ==> forall|fs: Seq<File>| !files_match(b@, p as int, fs),
{
    if p >= b.len() || b[p] != 108 {
        return None;
    }
    let mut out: Vec<File> = Vec::new();
    let mut q: usize = p + 1;
    while q < b.len() && b[q] != 101
        invariant
            p < b@.len(),
            item_pos(b@, p + 1, out@.len()) == Some(q as int),
            forall|k: int|
                0 <= k < out@.len() ==> file_matches(
                    b@,
                    item_pos(b@, p + 1, k as nat)->0,
                    #[trigger] out@[k],
                ),
        decreases b@.len() - q,
    {
        let f: File = match parse_file(b, q) {
            Some(v) => v,
            None => {
                proof {
                    lemma_files_stop(b@, p as int, out@.len(), q as int);
                }
                return None;
            },
        };
        let next: usize = match skip_value(b, q) {
            Some(n) => n,
            None => {
                proof {
                    lemma_files_stop(b@, p as int, out@.len(), q as int);
                }
                return None;
            },
        };
        proof {
            lemma_value_end_bounds(b@, q as int);
        }
        if next <= q || next > b.len() {
            return None;
        }
        proof {
            assert(item_pos(b@, p + 1, (out@.len() + 1) as nat) == Some(next as int));
        }
        let ghost old_out = out@;
        out.push(f);
        proof {
            assert forall|k: int| 0 <= k < out@.len() implies file_matches(
                b@,
                item_pos(b@, p + 1, k as nat)->0,
                #[trigger] out@[k],
            ) by {
                if k < old_out.len() {
                    assert(out@[k] == old_out[k]);
                } else {
                    assert(item_pos(b@, p + 1, k as nat) == Some(q as int));
                }
            }
        }
        q = next;
    }
    if q >= b.len() {
        proof {
            lemma_files_stop(b@, p as int, out@.len(), q as int);
        }
        return None;
    }
    Some(out)
}

/// Whether the lengths of `files` add up to at most `usize::MAX`.
fn total_fits(files: &Vec<File>) -> (r: bool)
    ensures
        r == (sum_lengths(files@) <= usize::MAX),
{
    let mut sum: usize = 0;
    let mut i: usize = 0;
    while i < files.len()
        invariant
            i <= files@.len(),
            sum == sum_lengths(files@.take(i as int)),
        decreases files@.len() - i,
    {
        assert(files@.take(i + 1).drop_last() =~= files@.take(i as int));
        if sum > usize::MAX - files[i].length {
            proof {
                lemma_sum_lengths_prefix(files@, i + 1);
            }
            return false;
        }
        sum = sum + files[i].length;
        i += 1;
    }
    assert(files@.take(files@.len() as int) =~= files@);
    true
}

impl Torrent {
    /// Parses a bencoded metainfo file.
    ///
    /// The checks come in this order: the bytes must be one dictionary;
    /// `announce` and `info` must be present, and `info` a dictionary;
    /// `name`, `piece length` and `pieces` must be present; exactly one of
    /// `length` and `files` must be present; the fields must have their
    /// types, with a positive piece length; the pieces must be a whole
    /// number of hashes; then the layout's contents must be well-formed
    /// and the total length must fit in a `usize`; last, there must be one
    /// hash for each piece.
    pub fn parse(b: &[u8]) -> (r: Result<Torrent, TorrentError>)
        ensures
            header_error(b@) matches Some(e) ==> r == Err::<Torrent, TorrentError>(e),
            header_error(b@) is None ==> (r is Ok || r == Err::<Torrent, TorrentError>(
                TorrentError::MalformedEncoding,
            ) || r == Err::<Torrent, TorrentError>(TorrentError::IndexMismatch)),
            header_error(b@) is None && info_field(b@, key_length()) is Some ==> {
                let length_pos = info_field(b@, key_length())->0;
                &&& (r == Err::<Torrent, TorrentError>(TorrentError::MalformedEncoding) <==> uint_at(
                    b@,
                    length_pos,
                ) is None)
                &&& (r is Ok <==> uint_at(b@, length_pos) is Some && hash_count(b@)
                    == piece_count_spec(uint_value(b@, length_pos), plength_of(b@)))
            },
            header_error(b@) is None && info_field(b@, key_length()) is None ==> {
                let files_pos = info_field(b@, key_files())->0;
                &&& (r == Err::<Torrent, TorrentError>(TorrentError::MalformedEncoding) <==> !exists|
                    fs: Seq<File>,
                |
                    files_match(b@, files_pos, fs) && sum_lengths(fs) <= usize::MAX)
                &&& (r is Ok <==> exists|fs: Seq<File>|
                    files_match(b@, files_pos, fs) && sum_lengths(fs) <= usize::MAX && hash_count(b@)
                        == piece_count_spec(sum_lengths(fs), plength_of(b@)))
            },
            r matches Ok(t) ==> t.info.pieces.0@.len() == t.piece_count(),
            r matches Ok(t) ==> t.wf() && parsed_from(b@, t),
    {
        let len: usize = b.len();
        if len == 0 || b[0] != 100 {
            return Err(TorrentError::MalformedEncoding);
        }
        match skip_value(b, 0) {
            Some(e) => {
                if e != len {
                    return Err(TorrentError::MalformedEncoding);
                }
            },
            None => {
                return Err(TorrentError::MalformedEncoding);
            },
        }
        let k_announce: [u8; 8] = [97, 110, 110, 111, 117, 110, 99, 101];
        let k_info: [u8; 4] = [105, 110, 102, 111];
        let k_name: [u8; 4] = [110, 97, 109, 101];
        let k_plength: [u8; 12] = [112, 105, 101, 99, 101, 32, 108, 101, 110, 103, 116, 104];
        let k_pieces: [u8; 6] = [112, 105, 101, 99, 101, 115];
        let k_length: [u8; 6] = [108, 101, 110, 103, 116, 104];
        let k_files: [u8; 5] = [102, 105, 108, 101, 115];
        assert(k_announce@ =~= key_announce());
        assert(k_info@ =~= key_info());
        assert(k_name@ =~= key_name());
        assert(k_plength@ =~= key_piece_length());
        assert(k_pieces@ =~= key_pieces());
        assert(k_length@ =~= key_length());
        assert(k_files@ =~= key_files());
        let ap = find_key(b, 1, k_announce.as_slice());
        let ip = find_key(b, 1, k_info.as_slice());
        let (ap, ip): (usize, usize) = match (ap, ip) {
            (Some(a), Some(i)) => (a, i),
            _ => {
                return Err(TorrentError::MissingField);
            },
        };
        if !(ip < len && b[ip] == 100) {
            return Err(TorrentError::MalformedEncoding);
        }
        let np = find_key(b, ip + 1, k_name.as_slice());
        let pl = find_key(b, ip + 1, k_plength.as_slice());
        let pp = find_key(b, ip + 1, k_pieces.as_slice());
        let (np, pl, pp): (usize, usize, usize) = match (np, pl, pp) {
            (Some(n), Some(l), Some(p)) => (n, l, p),
            _ => {
                return Err(TorrentError::MissingField);
            },
        };
        let lp = find_key(b, ip + 1, k_length.as_slice());
        let fp = find_key(b, ip + 1, k_files.as_slice());
        if lp.is_some() == fp.is_some() {
            return Err(TorrentError::LayoutConflict);
        }
        let announce = read_string(b, ap);
        let name = read_string(b, np);
        let plength = read_uint(b, pl);
        let pieces = read_string(b, pp);
        let (announce, name, plength, pieces): (Vec<u8>, Vec<u8>, usize, Vec<u8>) = match (
            announce,
            name,
            plength,
            pieces,
        ) {
            (Some(a), Some(n), Some(l), Some(p)) => {
                if l.0 == 0 {
                    return Err(TorrentError::MalformedEncoding);
                }
                (a, n, l.0, p)
            },
            _ => {
                return Err(TorrentError::MalformedEncoding);
            },
        };
        let hashes: Hashes = match Hashes::decode(pieces.as_slice()) {
            Ok(h) => h,
            Err(e) => {
                return Err(e);
            },
        };
        let keys: Keys = match lp {
            Some(lpos) => match read_uint(b, lpos) {
                Some(v) => Keys::SingleFile { length: v.0 },
                None => {
                    return Err(TorrentError::MalformedEncoding);
                },
            },
            None => {
                let fpos: usize = fp.unwrap();
                assert(fpos as int == info_field(b@, key_files())->0);
                match parse_files(b, fpos) {
                    Some(files) => {
                        if !total_fits(&files) {
                            proof {
                                assert forall|fs: Seq<File>|
                                    !(files_match(b@, fpos as int, fs) && sum_lengths(fs)
                                        <= usize::MAX) by {
                                    if files_match(b@, fpos as int, fs) {
                                        lemma_files_sum_unique(b@, fpos as int, files@, fs);
                                    }
                                }
                            }
                            return Err(TorrentError::MalformedEncoding);
                        }
                        assert(files_match(b@, fpos as int, files@) && sum_lengths(files@)
                            <= usize::MAX);
                        Keys::MultiFile { files }
                    },
                    None => {
                        return Err(TorrentError::MalformedEncoding);
                    },
                }
            },
        };
        let t = Torrent { announce, info: Info { name, plength, pieces: hashes, keys } };
        assert(hash_bytes(t.info.pieces.0@).len() == 20 * t.info.pieces.0@.len());
        assert(t.info.pieces.0@.len() == hash_count(b@));
        if t.info.pieces.0.len() != t.num_pieces() {
            proof {
                if let Keys::MultiFile { files } = t.info.keys {
                    let files_pos = info_field(b@, key_files())->0;
                    assert forall|fs: Seq<File>|
                        !(files_match(b@, files_pos, fs) && sum_lengths(fs) <= usize::MAX
                            && hash_count(b@) == piece_count_spec(
                            sum_lengths(fs),
                            plength_of(b@),
                        )) by {
                        if files_match(b@, files_pos, fs) {
                            lemma_files_sum_unique(b@, files_pos, files@, fs);
                        }
                    }
                }
            }
            return Err(TorrentError::IndexMismatch);
        }
        Ok(t)
    }
}

/// A well-formed metainfo dictionary whose info dictionary holds both
/// `length` and `files`, or neither, is refused with `LayoutConflict`.
pub proof fn lemma_layout_exclusive(b: Seq<u8>)
    requires
        is_dict_document(b),
        top_field(b, key_announce()) is Some,
        top_field(b, key_info()) is Some,
        top_field(b, key_info())->0 < b.len(),
        b[top_field(b, key_info())->0] == 100,
        info_field(b, key_name()) is Some,
        info_field(b, key_piece_length()) is Some,
        info_field(b, key_pieces()) is Some,
        (info_field(b, key_length()) is Some) == (info_field(b, key_files()) is Some),
    ensures
        header_error(b) == Some(TorrentError::LayoutConflict),
{
}

/// The path components `parts` joined by `sep`.
pub open spec fn join(parts: Seq<Vec<u8>>, sep: Seq<u8>) -> Seq<u8>
    decreases parts.len(),
{
    if parts.len() == 0 {
        Seq::empty()
    } else if parts.len() == 1 {
        parts[0]@
    } else {
        join(parts.drop_last(), sep) + sep + parts.last()@
    }
}

fn join_path(parts: &Vec<Vec<u8>>, sep: &[u8]) -> (r: Vec<u8>)
    ensures
        r@ == join(parts@, sep@),
{
    let mut out: Vec<u8> = Vec::new();
    let mut i: usize = 0;
    while i < parts.len()
        invariant
            i <= parts@.len(),
            out@ == join(parts@.take(i as int), sep@),
        decreases parts@.len() - i,
    {
        assert(parts@.take(i + 1).drop_last() =~= parts@.take(i as int));
        if i > 0 {
            let mut j: usize = 0;
            let ghost before = out@;
            while j < sep.len()
                invariant
                    j <= sep@.len(),
                    out@ == before + sep@.take(j as int),
                decreases sep@.len() - j,
            {
                out.push(sep[j]);
                assert(out@ =~= before + sep@.take(j + 1));
                j += 1;
            }
            assert(sep@.take(sep@.len() as int) =~= sep@);
        }
        let part: &Vec<u8> = &parts[i];
        let ghost before = out@;
        let mut k: usize = 0;
        while k < part.len()
            invariant
                k <= part@.len(),
                out@ == before + part@.take(k as int),
            decreases part@.len() - k,
        {
            out.push(part[k]);
            assert(out@ =~= before + part@.take(k + 1));
            k += 1;
        }
        assert(part@.take(part@.len() as int) =~= part@);
        assert(out@ =~= join(parts@.take(i + 1), sep@));
        i += 1;
    }
    assert(parts@.take(parts@.len() as int) =~= parts@);
    out
}

impl Torrent {
    /// The paths of the content: the name for a single file, else each
    /// file's path components joined by `sep`, in file order.
    pub fn file_list(&self, sep: &[u8]) -> (r: Vec<Vec<u8>>)
        ensures
            match self.info.keys {
                Keys::SingleFile { .. } => r@.len() == 1 && r@[0]@ == self.info.name@,
                Keys::MultiFile { files } => r@.len() == files@.len() && forall|i: int|
                    0 <= i < files@.len() ==> #[trigger] r@[i]@ == join(files@[i].path@, sep@),
            },
    {
        let mut out: Vec<Vec<u8>> = Vec::new();
        match &self.info.keys {
            Keys::SingleFile { .. } => {
                out.push(self.info.name.clone());
            },
            Keys::MultiFile { files } => {
                let mut i: usize = 0;
                while i < files.len()
                    invariant
                        i <= files@.len(),
                        out@.len() == i,
                        forall|k: int| 0 <= k < i ==> #[trigger] out@[k]@ == join(files@[k].path@, sep@),
                    decreases files@.len() - i,
                {
                    out.push(join_path(&files[i].path, sep));
                    i += 1;
                }
            },
        }
        out
    }
}

} // verus!
