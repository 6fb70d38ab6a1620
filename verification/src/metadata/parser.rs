use sha1::Digest;
use vstd::prelude::*;

use crate::bencode::lemmas::{lemma_dict_within, lemma_list_view, lemma_list_within, lemma_value_at_within};
use crate::bencode::model::{
    bytes_within, dict_lookup, dict_within, enc, list_view, spec_parse, Val,
};
use crate::bencode::{dict_get, encode, parse, BencodeError, Dict, Value};
use crate::crawler::{files_view, join_slash, key_files, key_length, key_name, key_path, sizes_sum};
use crate::metadata::decode::{decode_text, opt_view, text_of};
use crate::model::TorrentFile;
use crate::text::{str_chars, string_from_chars};

verus! {

/// The name and files of a torrent, read from its info dictionary.
#[derive(Debug, Clone)]
pub struct ParsedMetadata {
    pub name: String,
    pub total_size: u64,
    pub files: Vec<TorrentFile>,
}

/// Why metadata was refused.
#[derive(Debug, Clone, Copy, PartialEq, Eq, Structural)]
pub enum MetadataError {
    /// The SHA-1 of the metadata is not the expected info hash.
    HashMismatch,
    /// The input is not one bencode value.
    Bencode(BencodeError),
    /// The metainfo is not a dictionary.
    RootNotDict,
    /// The metainfo has no `info` entry.
    MissingInfo,
    /// The info value is not a dictionary.
    InfoNotDict,
    /// The info dictionary has no `name` byte string.
    MissingName,
    /// The file sizes add up to more than a `u64` holds.
    SizeOverflow,
}

/// What SHA-1 gives for some bytes.
pub uninterp spec fn sha1(data: Seq<u8>) -> Seq<u8>;

/// `sha1::Sha1::digest`, copied into an array: the contract names the 20-byte digest of
/// the data.
#[verifier::external_body]
pub(crate) fn sha1_digest(data: &[u8]) -> (r: [u8; 20])
    ensures
        r@ == sha1(data@),
{
    let digest = sha1::Sha1::digest(data);
    let mut out = [0u8; 20];
    out.copy_from_slice(digest.as_slice());
    out
}

pub open spec fn key_info() -> Seq<u8> {
    seq![105u8, 110, 102, 111]
}

pub open spec fn key_encoding() -> Seq<u8> {
    seq![101u8, 110, 99, 111, 100, 105, 110, 103]
}

/// A size: the integer, or 0 when it is missing, negative or not an integer.
pub open spec fn size_of(v: Option<Val>) -> u64 {
    match v {
        Some(Val::Int(i)) => if i > 0 {
            i as u64
        } else {
            0
        },
        _ => 0,
    }
}

/// The texts of the byte strings of a path list, each in the encoding `hint` names.
pub open spec fn part_texts(parts: Seq<Val>, hint: Option<Seq<u8>>) -> Seq<Seq<char>>
    decreases parts.len(),
{
    if parts.len() == 0 {
        Seq::empty()
    } else {
        let rest = part_texts(parts.drop_last(), hint);
        match parts.last() {
            Val::Bytes(b) => rest.push(text_of(b, hint)),
            _ => rest,
        }
    }
}

/// The path of a file entry: its `path` list joined by `/`, or nothing.
pub open spec fn item_path(f: Seq<(Seq<u8>, Val)>, hint: Option<Seq<u8>>) -> Seq<char> {
    match dict_lookup(f, key_path()) {
        Some(Val::List(parts)) => join_slash(part_texts(parts, hint)),
        _ => Seq::empty(),
    }
}

/// The files of a `files` list: its dictionaries whose path is not empty.
pub open spec fn info_items(items: Seq<Val>, hint: Option<Seq<u8>>) -> Seq<(Seq<char>, u64)>
    decreases items.len(),
{
    if items.len() == 0 {
        Seq::empty()
    } else {
        let rest = info_items(items.drop_last(), hint);
        match items.last() {
            Val::Dict(f) => if item_path(f, hint).len() > 0 {
                rest.push((item_path(f, hint), size_of(dict_lookup(f, key_length()))))
            } else {
                rest
            },
            _ => rest,
        }
    }
}

/// The files of an info dictionary: its `files` list, or else one file named after the
/// torrent.
pub open spec fn info_files(d: Seq<(Seq<u8>, Val)>, name: Seq<char>, hint: Option<Seq<u8>>) -> Seq<(Seq<char>, u64)> {
    match dict_lookup(d, key_files()) {
        Some(Val::List(items)) => info_items(items, hint),
        _ => seq![(name, size_of(dict_lookup(d, key_length())))],
    }
}

/// What an info value gives, its texts read in the encoding `hint` names: the name and
/// the files; refused when it is no dictionary, has no `name` byte string, or when the
/// file sizes add up to more than a `u64` holds.
pub open spec fn info_spec(v: Val, hint: Option<Seq<u8>>) -> Result<(Seq<char>, Seq<(Seq<char>, u64)>), MetadataError> {
    match v {
        Val::Dict(d) => match dict_lookup(d, key_name()) {
            Some(Val::Bytes(nb)) => {
                let name = text_of(nb, hint);
                let fs = info_files(d, name, hint);
                if sizes_sum(fs) > u64::MAX {
                    Err(MetadataError::SizeOverflow)
                } else {
                    Ok((name, fs))
                }
            },
            _ => Err(MetadataError::MissingName),
        },
        _ => Err(MetadataError::InfoNotDict),
    }
}

/// `r` is the outcome `s` describes: the same error, or metadata with that name and those
/// files, whose total size is the sum of the file sizes.
pub open spec fn metadata_matches(
    r: Result<ParsedMetadata, MetadataError>,
    s: Result<(Seq<char>, Seq<(Seq<char>, u64)>), MetadataError>,
) -> bool {
    match s {
        Ok((name, fs)) => r matches Ok(m) && m.name@ == name && files_view(m.files@) == fs
            && m.total_size == sizes_sum(fs),
        Err(e) => r == Err::<ParsedMetadata, MetadataError>(e),
    }
}

/// What reading an info value gives, its texts read in the encoding `hint` names.
pub open spec fn info_outcome(r: Result<ParsedMetadata, MetadataError>, v: Val, hint: Option<Seq<u8>>) -> bool {
    metadata_matches(r, info_spec(v, hint))
}

/// What metadata fetched for `hash` gives: a hash mismatch when its SHA-1 is another, the
/// bencode error when it does not parse, else what its info dictionary gives.
pub open spec fn fetched_spec(hash: [u8; 20], metadata: Seq<u8>) -> Result<(Seq<char>, Seq<(Seq<char>, u64)>), MetadataError> {
    if sha1(metadata) != hash@ {
        Err(MetadataError::HashMismatch)
    } else {
        match spec_parse(metadata) {
            Err(e) => Err(MetadataError::Bencode(e)),
            Ok(v) => info_spec(v, None),
        }
    }
}

/// What parsing metadata fetched for `hash` gives.
pub open spec fn fetched_outcome(hash: [u8; 20], metadata: Seq<u8>, r: Result<ParsedMetadata, MetadataError>) -> bool {
    metadata_matches(r, fetched_spec(hash, metadata))
}

/// The encoding that a metainfo dictionary names under `encoding`, if a byte string.
pub open spec fn named_encoding(root: Seq<(Seq<u8>, Val)>) -> Option<Seq<u8>> {
    match dict_lookup(root, key_encoding()) {
        Some(Val::Bytes(b)) => Some(b),
        _ => None,
    }
}

proof fn lemma_lookup_within(d: Seq<(Seq<u8>, Val)>, k: Seq<u8>, n: nat)
    requires
        dict_within(d, n),
    ensures
        dict_lookup(d, k) matches Some(v) ==> bytes_within(v, n),
    decreases d.len(),
{
    lemma_dict_within(d, n);
    if d.len() > 0 && d[0].0 != k {
        let rest = d.drop_first();
        assert forall|j: int| 0 <= j < rest.len() implies bytes_within(#[trigger] rest[j].1, n) by {
            assert(rest[j] == d[j + 1]);
        }
        lemma_dict_within(rest, n);
        lemma_lookup_within(rest, k, n);
    }
}

/// A size: the integer, or 0 when it is missing, negative or not an integer.
fn size_value(v: Option<&Value>) -> (r: u64)
    ensures
        r == size_of(
            match v {
                Some(x) => Some(x@),
                None => None,
            },
        ),
{
    match v {
        Some(Value::Int(i)) => if *i > 0 {
            *i as u64
        } else {
            0
        },
        _ => 0,
    }
}

/// The path of a file entry: the texts of its `path` byte strings joined by `/`.
fn item_path_chars(file: &Dict, encoding: Option<&[u8]>) -> (r: Vec<char>)
    requires
        dict_within(file@, (usize::MAX / 4) as nat),
    ensures
        r@ == item_path(file@, opt_view(encoding)),
{
    let ghost hint = opt_view(encoding);
    let key_path: &[u8] = &[112u8, 97, 116, 104];
    assert(key_path@ == crate::crawler::key_path());
    let mut out: Vec<char> = Vec::new();
    match dict_get(file, key_path) {
        Some(Value::List(parts)) => {
            let ghost ps = list_view(parts@);
            proof {
                lemma_list_view(parts@);
                lemma_lookup_within(file@, key_path@, (usize::MAX / 4) as nat);
                lemma_list_within(ps, (usize::MAX / 4) as nat);
            }
            let mut count: usize = 0;
            let mut i: usize = 0;
            assert(ps.take(0) =~= Seq::<Val>::empty());
            while i < parts.len()
                invariant
                    ps == list_view(parts@),
                    ps.len() == parts@.len(),
                    forall|j: int| 0 <= j < ps.len() ==> #[trigger] ps[j] == parts@[j]@,
                    forall|j: int|
                        0 <= j < ps.len() ==> bytes_within(#[trigger] ps[j], (usize::MAX / 4) as nat),
                    i <= parts.len(),
                    count == part_texts(ps.take(i as int), hint).len(),
                    count <= i,
                    hint == opt_view(encoding),
                    out@ == join_slash(part_texts(ps.take(i as int), hint)),
                decreases parts.len() - i,
            {
                let ghost before = part_texts(ps.take(i as int), hint);
                assert(ps.take(i + 1).drop_last() =~= ps.take(i as int));
                assert(ps.take(i + 1).last() == parts@[i as int]@);
                match &parts[i] {
                    Value::Bytes(b) => {
                        assert(ps[i as int] == parts@[i as int]@);
                        let text = decode_text(b.as_slice(), encoding);
                        let cs = str_chars(text.as_str());
                        if count > 0 {
                            out.push('/');
                        }
                        let ghost mid = out@;
                        let mut j: usize = 0;
                        while j < cs.len()
                            invariant
                                j <= cs@.len(),
                                out@ == mid + cs@.take(j as int),
                            decreases cs.len() - j,
                        {
                            out.push(cs[j]);
                            assert(out@ =~= mid + cs@.take(j + 1));
                            j = j + 1;
                        }
                        assert(cs@.take(cs@.len() as int) =~= cs@);
                        proof {
                            let b_view = b@;
                            assert(before.push(text_of(b_view, hint)).drop_last() =~= before);
                        }
                        count = count + 1;
                    },
                    _ => {},
                }
                i = i + 1;
            }
            assert(ps.take(ps.len() as int) =~= ps);
        },
        _ => {},
    }
    out
}


/// Reads the name and files of an info dictionary.
#[verifier::loop_isolation(false)]
pub fn parse_info_value(value: &Value, encoding: Option<&[u8]>) -> (r: Result<
    ParsedMetadata,
    MetadataError,
>)
    requires
        bytes_within(value@, (usize::MAX / 4) as nat),
    ensures
        info_outcome(r, value@, opt_view(encoding)),
{
    let ghost hint = opt_view(encoding);
    let info = match value {
        Value::Dict(info) => info,
        _ => {
            return Err(MetadataError::InfoNotDict);
        },
    };
    let ghost d = info@;
    let ghost bound = (usize::MAX / 4) as nat;
    let key_name: &[u8] = &[110u8, 97, 109, 101];
    let key_files: &[u8] = &[102u8, 105, 108, 101, 115];
    let key_length: &[u8] = &[108u8, 101, 110, 103, 116, 104];
    assert(key_name@ == crate::crawler::key_name());
    assert(key_files@ == crate::crawler::key_files());
    assert(key_length@ == crate::crawler::key_length());
    proof {
        lemma_lookup_within(d, key_name@, bound);
        lemma_lookup_within(d, key_files@, bound);
    }
    let name_bytes = match dict_get(info, key_name) {
        Some(Value::Bytes(b)) => b,
        _ => {
            return Err(MetadataError::MissingName);
        },
    };
    let name = decode_text(name_bytes.as_slice(), encoding);
    let mut files: Vec<TorrentFile> = Vec::new();
    match dict_get(info, key_files) {
        Some(Value::List(items)) => {
            let ghost its = list_view(items@);
            proof {
                lemma_list_view(items@);
                lemma_list_within(its, bound);
            }
            let mut i: usize = 0;
            assert(its.take(0) =~= Seq::<Val>::empty());
            while i < items.len()
                invariant
                    its == list_view(items@),
                    its.len() == items@.len(),
                    forall|j: int| 0 <= j < its.len() ==> #[trigger] its[j] == items@[j]@,
                    forall|j: int| 0 <= j < its.len() ==> bytes_within(#[trigger] its[j], bound),
                    i <= items.len(),
                    hint == opt_view(encoding),
                    files_view(files@) == info_items(its.take(i as int), hint),
                decreases items.len() - i,
            {
                assert(its.take(i + 1).drop_last() =~= its.take(i as int));
                assert(its.take(i + 1).last() == items@[i as int]@);
                match &items[i] {
                    Value::Dict(file) => {
                        assert(its[i as int] == items@[i as int]@);
                        proof {
                            lemma_lookup_within(file@, key_length@, bound);
                        }
                        let size = size_value(dict_get(file, key_length));
                        let path = item_path_chars(file, encoding);
                        if path.len() > 0 {
                            let ghost before = files@;
                            let f = TorrentFile { path: string_from_chars(&path), size };
                            files.push(f);
                            assert(files_view(files@) =~= files_view(before).push(
                                crate::crawler::file_view(f),
                            ));
                        }

                    },
                    _ => {},
                }
                i = i + 1;
            }
            assert(its.take(its.len() as int) =~= its);
        },
        _ => {
            let size = size_value(dict_get(info, key_length));
            let path = string_from_chars(&str_chars(name.as_str()));
            let f = TorrentFile { path, size };
            files.push(f);
            assert(files_view(files@) =~= seq![crate::crawler::file_view(f)]);
        },
    }
    let ghost fs = files_view(files@);
    let mut total: u64 = 0;
    let mut i: usize = 0;
    assert(fs.take(0) =~= Seq::<(Seq<char>, u64)>::empty());
    while i < files.len()
        invariant
            fs == files_view(files@),
            fs.len() == files@.len(),
            i <= files.len(),
            total == sizes_sum(fs.take(i as int)),
        decreases files.len() - i,
    {
        assert(fs.take(i + 1).drop_last() =~= fs.take(i as int));
        assert(fs[i as int].1 == files@[i as int].size);
        match total.checked_add(files[i].size) {
            Some(t) => {
                total = t;
            },
            None => {
                proof {
                    crate::crawler::lemma_sizes_sum_grows(fs, i + 1);
                }
                return Err(MetadataError::SizeOverflow);
            },
        }
        i = i + 1;
    }
    assert(fs.take(fs.len() as int) =~= fs);
    Ok(ParsedMetadata { name, total_size: total, files })
}

/// Reads fetched metadata: its SHA-1 must be the expected info hash, and it must be one
/// bencoded info dictionary.
#[verifier::loop_isolation(false)]
pub fn parse_info_metadata(expected_info_hash: &[u8; 20], metadata: &[u8]) -> (r: Result<
    ParsedMetadata,
    MetadataError,
>)
    requires
        metadata@.len() <= usize::MAX / 4,
    ensures
        fetched_outcome(*expected_info_hash, metadata@, r),
{
    let actual = sha1_digest(metadata);
    let mut i: usize = 0;
    while i < 20
        invariant
            i <= 20,
            forall|j: int| 0 <= j < i ==> actual@[j] == expected_info_hash@[j],
        decreases 20 - i,
    {
        if actual[i] != expected_info_hash[i] {
            return Err(MetadataError::HashMismatch);
        }
        i = i + 1;
    }
    assert(actual@ =~= expected_info_hash@);
    let value = match parse(metadata) {
        Ok(v) => v,
        Err(e) => {
            return Err(MetadataError::Bencode(e));
        },
    };
    proof {
        lemma_value_at_within(metadata@, 0);
        lemma_bytes_within_mono(value@, metadata@.len(), (usize::MAX / 4) as nat);
    }
    parse_info_value(&value, None)
}

/// A bound on byte strings holds for every larger bound too.
proof fn lemma_bytes_within_mono(v: Val, n: nat, m: nat)
    requires
        bytes_within(v, n),
        n <= m,
    ensures
        bytes_within(v, m),
    decreases v,
{
    match v {
        Val::List(items) => {
            lemma_list_within(items, n);
            assert forall|j: int| 0 <= j < items.len() implies bytes_within(#[trigger] items[j], m) by {
                lemma_bytes_within_mono(items[j], n, m);
            }
            lemma_list_within(items, m);
        },
        Val::Dict(entries) => {
            lemma_dict_within(entries, n);
            assert forall|j: int| 0 <= j < entries.len() implies bytes_within(
                #[trigger] entries[j].1,
                m,
            ) by {
                assert(decreases_to!(entries => entries[j]));
                lemma_bytes_within_mono(entries[j].1, n, m);
            }
            lemma_dict_within(entries, m);
        },
        _ => {},
    }
}

/// Reads a `.torrent` file: its info hash (the SHA-1 of the bencoded info dictionary) and
/// the name and files of that dictionary, whose texts may be in the encoding that the file
/// names.
pub fn parse_torrent_metainfo(input: &[u8]) -> (r: Result<([u8; 20], ParsedMetadata), MetadataError>)
    requires
        input@.len() <= usize::MAX / 4,
    ensures
        match spec_parse(input@) {
            Err(e) => r == Err::<([u8; 20], ParsedMetadata), MetadataError>(
                MetadataError::Bencode(e),
            ),
            Ok(Val::Dict(root)) => match dict_lookup(root, key_info()) {
                None => r == Err::<([u8; 20], ParsedMetadata), MetadataError>(
                    MetadataError::MissingInfo,
                ),
                Some(info) => {
                    let inner = match r {
                        Ok((h, m)) => Ok::<ParsedMetadata, MetadataError>(m),
                        Err(e) => Err::<ParsedMetadata, MetadataError>(e),
                    };
                    &&& info_outcome(inner, info, named_encoding(root))
                    &&& (r matches Ok((h, m)) ==> h@ == sha1(enc(info)))
                },
            },
            Ok(_) => r == Err::<([u8; 20], ParsedMetadata), MetadataError>(
                MetadataError::RootNotDict,
            ),
        },
{
    let root = match parse(input) {
        Ok(v) => v,
        Err(e) => {
            return Err(MetadataError::Bencode(e));
        },
    };
    proof {
        lemma_value_at_within(input@, 0);
        lemma_bytes_within_mono(root@, input@.len(), (usize::MAX / 4) as nat);
    }
    let root_dict = match &root {
        Value::Dict(d) => d,
        _ => {
            return Err(MetadataError::RootNotDict);
        },
    };
    let key_info: &[u8] = &[105u8, 110, 102, 111];
    let key_encoding: &[u8] = &[101u8, 110, 99, 111, 100, 105, 110, 103];
    assert(key_info@ == crate::metadata::parser::key_info());
    proof {
        lemma_lookup_within(root_dict@, key_info@, (usize::MAX / 4) as nat);
    }
    let info = match dict_get(root_dict, key_info) {
        Some(v) => v,
        None => {
            return Err(MetadataError::MissingInfo);
        },
    };
    let encoding = match dict_get(root_dict, key_encoding) {
        Some(Value::Bytes(b)) => Some(b.as_slice()),
        _ => None,
    };
    let mut encoded_info: Vec<u8> = Vec::new();
    encode(info, &mut encoded_info);
    assert(encoded_info@ =~= enc(info@));
    let info_hash = sha1_digest(encoded_info.as_slice());
    match parse_info_value(info, encoding) {
        Ok(m) => Ok((info_hash, m)),
        Err(e) => Err(e),
    }
}


/// Law: a path part is decoded as the torrent's name is, in the encoding the hint names:
/// a file whose path is one byte string has that string's decoded text as its path.
pub proof fn law_path_part_decoded(f: Seq<(Seq<u8>, Val)>, hint: Option<Seq<u8>>, b: Seq<u8>)
    requires
        dict_lookup(f, seq![112u8, 97, 116, 104]) == Some(Val::List(seq![Val::Bytes(b)])),
    ensures
        item_path(f, hint) == text_of(b, hint),
{
    assert(key_path() == seq![112u8, 97, 116, 104]);
    let parts = seq![Val::Bytes(b)];
    assert(parts.drop_last() =~= Seq::<Val>::empty());
    assert(parts.last() == Val::Bytes(b));
    assert(part_texts(Seq::<Val>::empty(), hint) == Seq::<Seq<char>>::empty());
    assert(part_texts(parts, hint) == Seq::<Seq<char>>::empty().push(text_of(b, hint)));
    assert(Seq::<Seq<char>>::empty().push(text_of(b, hint)) =~= seq![text_of(b, hint)]);
}

/// Law: in a multi-file info dictionary, a file whose one path part holds the same bytes
/// as the torrent's name gets the name's text as its path.
pub proof fn law_path_like_name(
    d: Seq<(Seq<u8>, Val)>,
    hint: Option<Seq<u8>>,
    nb: Seq<u8>,
    f: Seq<(Seq<u8>, Val)>,
)
    requires
        dict_lookup(d, seq![110u8, 97, 109, 101]) == Some(Val::Bytes(nb)),
        dict_lookup(d, seq![102u8, 105, 108, 101, 115]) == Some(Val::List(seq![Val::Dict(f)])),
        dict_lookup(f, seq![112u8, 97, 116, 104]) == Some(Val::List(seq![Val::Bytes(nb)])),
        text_of(nb, hint).len() > 0,
    ensures
        info_spec(Val::Dict(d), hint) matches Ok((name, fs)) ==> fs.len() == 1 && fs[0].0 == name,
{
    assert(key_name() == seq![110u8, 97, 109, 101]);
    assert(key_files() == seq![102u8, 105, 108, 101, 115]);
    law_path_part_decoded(f, hint, nb);
    let items = seq![Val::Dict(f)];
    assert(items.drop_last() =~= Seq::<Val>::empty());
    assert(items.last() == Val::Dict(f));
    assert(info_items(Seq::<Val>::empty(), hint) == Seq::<(Seq<char>, u64)>::empty());
    assert(join_slash(seq![text_of(nb, hint)]) == text_of(nb, hint));
    assert(item_path(f, hint).len() > 0);
    let fs = info_items(items, hint);
    assert(fs == Seq::<(Seq<char>, u64)>::empty().push((item_path(f, hint), size_of(dict_lookup(f, key_length())))));
    assert(info_files(d, text_of(nb, hint), hint) == fs);
}

} // verus!
