use vstd::prelude::*;

use crate::bencode::{item_pos, lemma_list_len_unique};
use crate::hashes::{hash_bytes, lemma_hashes_round_trip};
use crate::torrent::{
    file_matches, files_match, key_files, key_length, key_name, key_path, key_piece_length,
    key_pieces, parsed_from, strings_match, File, Info, Keys, Torrent,
};

verus! {

/// The decimal digits of `n`, most significant first, without leading zeros.
pub open spec fn dec_digits(n: nat) -> Seq<u8>
    decreases n,
{
    if n < 10 {
        seq![(48 + n) as u8]
    } else {
        dec_digits(n / 10) + seq![(48 + n % 10) as u8]
    }
}

/// A byte string in bencode: its length, a colon, its bytes.
pub open spec fn enc_str(s: Seq<u8>) -> Seq<u8> {
    dec_digits(s.len()) + seq![58u8] + s
}

/// A non-negative integer in bencode.
pub open spec fn enc_uint(n: nat) -> Seq<u8> {
    seq![105u8] + dec_digits(n) + seq![101u8]
}

/// The encodings of `parts` laid end to end.
pub open spec fn enc_strs(parts: Seq<Vec<u8>>) -> Seq<u8>
    decreases parts.len(),
{
    if parts.len() == 0 {
        Seq::empty()
    } else {
        enc_strs(parts.drop_last()) + enc_str(parts.last()@)
    }
}

/// A file dictionary, keys in ascending order.
pub open spec fn enc_file(f: File) -> Seq<u8> {
    seq![100u8] + enc_str(key_length()) + enc_uint(f.length as nat) + enc_str(key_path()) + seq![108u8]
        + enc_strs(f.path@) + seq![101u8] + seq![101u8]
}

/// The encodings of `files` laid end to end.
pub open spec fn enc_files(files: Seq<File>) -> Seq<u8>
    decreases files.len(),
{
    if files.len() == 0 {
        Seq::empty()
    } else {
        enc_files(files.drop_last()) + enc_file(files.last())
    }
}

/// The layout's entry of the info dictionary.
pub open spec fn enc_keys(keys: Keys) -> Seq<u8> {
    match keys {
        Keys::SingleFile { length } => enc_str(key_length()) + enc_uint(length as nat),
        Keys::MultiFile { files } => enc_str(key_files()) + seq![108u8] + enc_files(files@) + seq![
            101u8,
        ],
    }
}

/// The canonical bencoding of an info dictionary: keys in ascending byte
/// order (`files` or `length`, `name`, `piece length`, `pieces`).
pub open spec fn info_bytes(info: Info) -> Seq<u8> {
    seq![100u8] + enc_keys(info.keys) + enc_str(key_name()) + enc_str(info.name@) + enc_str(
        key_piece_length(),
    ) + enc_uint(info.plength as nat) + enc_str(key_pieces()) + enc_str(hash_bytes(info.pieces.0@))
        + seq![101u8]
}

/// The SHA-1 digest of `data`.
pub uninterp spec fn sha1_of(data: Seq<u8>) -> Seq<u8>;

/// Relies on `sha1::Sha1` through `Digest::digest`: the 20-byte SHA-1
/// digest of `data`, which depends on `data` alone.
#[verifier::external_body]
fn sha1_digest(data: &[u8]) -> (r: [u8; 20])
    ensures
        r@ == sha1_of(data@),
{
    <sha1::Sha1 as sha1::Digest>::digest(data).into()
}

fn push_decimal(out: &mut Vec<u8>, n: usize)
    ensures
        final(out)@ == old(out)@ + dec_digits(n as nat),
    decreases n,
{
    if n >= 10 {
        push_decimal(out, n / 10);
    }
    out.push((48 + n % 10) as u8);
    assert(final(out)@ =~= old(out)@ + dec_digits(n as nat));
}

fn push_str(out: &mut Vec<u8>, s: &[u8])
    ensures
        final(out)@ == old(out)@ + enc_str(s@),
{
    push_decimal(out, s.len());
    out.push(58);
    let ghost mid = out@;
    let mut i: usize = 0;
    while i < s.len()
        invariant
            i <= s@.len(),
            out@ == mid + s@.take(i as int),
        decreases s@.len() - i,
    {
        out.push(s[i]);
        assert(out@ =~= mid + s@.take(i + 1));
        i += 1;
    }
    assert(s@.take(s@.len() as int) =~= s@);
    assert(out@ =~= old(out)@ + enc_str(s@));
}

fn push_uint(out: &mut Vec<u8>, n: usize)
    ensures
        final(out)@ == old(out)@ + enc_uint(n as nat),
{
    out.push(105);
    push_decimal(out, n);
    out.push(101);
    assert(final(out)@ =~= old(out)@ + enc_uint(n as nat));
}

fn push_file(out: &mut Vec<u8>, f: &File)
    ensures
        final(out)@ == old(out)@ + enc_file(*f),
{
    let k_length: [u8; 6] = [108, 101, 110, 103, 116, 104];
    let k_path: [u8; 4] = [112, 97, 116, 104];
    assert(k_length@ =~= key_length());
    assert(k_path@ =~= key_path());
    out.push(100);
    push_str(out, k_length.as_slice());
    push_uint(out, f.length);
    push_str(out, k_path.as_slice());
    out.push(108);
    let ghost mid = out@;
    let mut i: usize = 0;
    while i < f.path.len()
        invariant
            i <= f.path@.len(),
            out@ == mid + enc_strs(f.path@.take(i as int)),
        decreases f.path@.len() - i,
    {
        assert(f.path@.take(i + 1).drop_last() =~= f.path@.take(i as int));
        push_str(out, f.path[i].as_slice());
        assert(out@ =~= mid + enc_strs(f.path@.take(i + 1)));
        i += 1;
    }
    assert(f.path@.take(f.path@.len() as int) =~= f.path@);
    out.push(101);
    out.push(101);
    assert(final(out)@ =~= old(out)@ + enc_file(*f));
}

impl Torrent {
    /// The canonical bencoding of the info dictionary.
    pub fn info_bytes(&self) -> (r: Vec<u8>)
        requires
            self.wf(),
        ensures
            r@ == info_bytes(self.info),
    {
        let k_files: [u8; 5] = [102, 105, 108, 101, 115];
        let k_length: [u8; 6] = [108, 101, 110, 103, 116, 104];
        let k_name: [u8; 4] = [110, 97, 109, 101];
        let k_plength: [u8; 12] = [112, 105, 101, 99, 101, 32, 108, 101, 110, 103, 116, 104];
        let k_pieces: [u8; 6] = [112, 105, 101, 99, 101, 115];
        assert(k_files@ =~= key_files());
        assert(k_length@ =~= key_length());
        assert(k_name@ =~= key_name());
        assert(k_plength@ =~= key_piece_length());
        assert(k_pieces@ =~= key_pieces());
        let mut out: Vec<u8> = Vec::new();
        out.push(100);
        match &self.info.keys {
            Keys::SingleFile { length } => {
                push_str(&mut out, k_length.as_slice());
                push_uint(&mut out, *length);
            },
            Keys::MultiFile { files } => {
                push_str(&mut out, k_files.as_slice());
                out.push(108);
                let ghost mid = out@;
                let mut i: usize = 0;
                while i < files.len()
                    invariant
                        i <= files@.len(),
                        out@ == mid + enc_files(files@.take(i as int)),
                    decreases files@.len() - i,
                {
                    assert(files@.take(i + 1).drop_last() =~= files@.take(i as int));
                    push_file(&mut out, &files[i]);
                    assert(out@ =~= mid + enc_files(files@.take(i + 1)));
                    i += 1;
                }
                assert(files@.take(files@.len() as int) =~= files@);
                out.push(101);
            },
        }
        let ghost after_keys = out@;
        assert(after_keys =~= seq![100u8] + enc_keys(self.info.keys));
        push_str(&mut out, k_name.as_slice());
        push_str(&mut out, self.info.name.as_slice());
        push_str(&mut out, k_plength.as_slice());
        push_uint(&mut out, self.info.plength);
        push_str(&mut out, k_pieces.as_slice());
        let pieces: Vec<u8> = self.info.pieces.encode();
        push_str(&mut out, pieces.as_slice());
        out.push(101);
        assert(out@ =~= info_bytes(self.info));
        out
    }

    /// The info hash: the SHA-1 digest of the canonical bencoding of the
    /// info dictionary.
    pub fn info_hash(&self) -> (r: [u8; 20])
        requires
            self.wf(),
        ensures
            r@ == sha1_of(info_bytes(self.info)),
    {
        let bytes: Vec<u8> = self.info_bytes();
        sha1_digest(bytes.as_slice())
    }
}

proof fn lemma_enc_strs_equal(s1: Seq<Vec<u8>>, s2: Seq<Vec<u8>>)
    requires
        s1.len() == s2.len(),
        forall|i: int| 0 <= i < s1.len() ==> s1[i]@ == s2[i]@,
    ensures
        enc_strs(s1) == enc_strs(s2),
    decreases s1.len(),
{
    if s1.len() > 0 {
        lemma_enc_strs_equal(s1.drop_last(), s2.drop_last());
    }
}

proof fn lemma_enc_files_equal(f1: Seq<File>, f2: Seq<File>)
    requires
        f1.len() == f2.len(),
        forall|i: int| 0 <= i < f1.len() ==> enc_file(f1[i]) == enc_file(f2[i]),
    ensures
        enc_files(f1) == enc_files(f2),
    decreases f1.len(),
{
    if f1.len() > 0 {
        lemma_enc_files_equal(f1.drop_last(), f2.drop_last());
    }
}

proof fn lemma_file_unique(b: Seq<u8>, q: int, f1: File, f2: File)
    requires
        file_matches(b, q, f1),
        file_matches(b, q, f2),
    ensures
        enc_file(f1) == enc_file(f2),
{
    let pp = crate::bencode::lookup(b, q + 1, key_path())->0 + 1;
    lemma_list_len_unique(b, pp, f1.path@.len(), f2.path@.len());
    assert forall|i: int| 0 <= i < f1.path@.len() implies f1.path@[i]@ == f2.path@[i]@ by {
        assert(crate::torrent::string_matches(b, item_pos(b, pp, i as nat)->0, f1.path@[i]));
        assert(crate::torrent::string_matches(b, item_pos(b, pp, i as nat)->0, f2.path@[i]));
    }
    lemma_enc_strs_equal(f1.path@, f2.path@);
}

/// Parsing the same bytes twice yields the same canonical info encoding,
/// and so the same info hash.
pub proof fn lemma_info_hash_deterministic(b: Seq<u8>, t1: Torrent, t2: Torrent)
    requires
        parsed_from(b, t1),
        parsed_from(b, t2),
    ensures
        info_bytes(t1.info) == info_bytes(t2.info),
        sha1_of(info_bytes(t1.info)) == sha1_of(info_bytes(t2.info)),
{
    lemma_hashes_round_trip(t1.info.pieces.0@, t2.info.pieces.0@);
    match (t1.info.keys, t2.info.keys) {
        (Keys::MultiFile { files: f1 }, Keys::MultiFile { files: f2 }) => {
            let p = crate::torrent::info_field(b, key_files())->0;
            lemma_list_len_unique(b, p + 1, f1@.len(), f2@.len());
            assert forall|i: int| 0 <= i < f1@.len() implies enc_file(f1@[i]) == enc_file(
                f2@[i],
            ) by {
                lemma_file_unique(b, item_pos(b, p + 1, i as nat)->0, f1@[i], f2@[i]);
            }
            lemma_enc_files_equal(f1@, f2@);
        },
        _ => {},
    }
}

} // verus!
