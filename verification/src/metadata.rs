//! What the metadata of a torrent says of it: its name and its files.

use vstd::prelude::*;
use vstd::string::*;
use vstd::utf8::{
    decode_utf8, decode_utf8_encode_utf8, encode_utf8_decode_utf8, encode_utf8_valid_utf8,
    valid_utf8,
};
use crate::bencode::{bytes_at, int_at, key, list_at, list_model, BModel, BVal, Dict};
use crate::codec::{
    decode, decoded, enc, encodable, law_decode_encode, lemma_put_encodable, MAX_DEPTH,
};
use crate::keyed::{law_put_lookup, lookup, put};
use crate::krpc::{lemma_keys_differ, with_bytes, Pairs};
use crate::routing::text_list;
use crate::text::utf8_text;
use crate::wire::with_int;

verus! {

/// A file of a torrent.
pub struct TorrentFile {
    pub path: Vec<String>,
    pub length: i64,
}

/// What a file stands for.
#[verifier::ext_equal]
pub struct FileModel {
    pub path: Seq<Seq<char>>,
    pub length: i64,
}

impl View for TorrentFile {
    type V = FileModel;

    open spec fn view(&self) -> FileModel {
        FileModel { path: text_list(self.path@), length: self.length }
    }
}

/// What a list of files stands for.
pub open spec fn file_list(s: Seq<TorrentFile>) -> Seq<FileModel> {
    Seq::new(s.len(), |i: int| s[i]@)
}

/// A torrent: its name and its files.
pub struct Torrent {
    pub name: String,
    pub files: Vec<TorrentFile>,
}

/// What a torrent stands for.
#[verifier::ext_equal]
pub struct TorrentModel {
    pub name: Seq<char>,
    pub files: Seq<FileModel>,
}

impl View for Torrent {
    type V = TorrentModel;

    open spec fn view(&self) -> TorrentModel {
        TorrentModel { name: self.name@, files: file_list(self.files@) }
    }
}

/// The text under a key, where the key is bound to readable bytes.
pub open spec fn text_at(p: Pairs, k: Seq<char>) -> Option<Seq<char>> {
    match bytes_at(p, k) {
        Some(b) => if valid_utf8(b) {
            Some(decode_utf8(b))
        } else {
            None
        },
        None => None,
    }
}

/// The parts of a path; those that are not readable are left out.
pub open spec fn path_of(s: Seq<BModel>) -> Seq<Seq<char>>
    decreases s.len(),
{
    if s.len() == 0 {
        Seq::empty()
    } else {
        let front = path_of(s.drop_last());
        match s.last() {
            BModel::Bytes(b) => if valid_utf8(b) {
                front.push(decode_utf8(b))
            } else {
                front
            },
            _ => front,
        }
    }
}

/// A file, where a value describes one: it has a length and a path.
pub open spec fn file_of(v: BModel) -> Option<FileModel> {
    match v {
        BModel::Dict(d) => match (int_at(d, "length"@), list_at(d, "path"@)) {
            (Some(length), Some(path)) => Some(FileModel { path: path_of(path), length }),
            _ => None,
        },
        _ => None,
    }
}

/// The files of a list; what describes none is left out.
pub open spec fn files_of(s: Seq<BModel>) -> Seq<FileModel>
    decreases s.len(),
{
    if s.len() == 0 {
        Seq::empty()
    } else {
        let front = files_of(s.drop_last());
        match file_of(s.last()) {
            Some(f) => front.push(f),
            None => front,
        }
    }
}

/// The files of a torrent: those that are listed, or else the one that has its name and length.
pub open spec fn all_files(d: Pairs, name: Seq<char>) -> Seq<FileModel> {
    match list_at(d, "files"@) {
        Some(l) => files_of(l),
        None => match int_at(d, "length"@) {
            Some(length) => seq![FileModel { path: seq![name], length }],
            None => Seq::empty(),
        },
    }
}

/// What metadata says: it must have a readable name and at least one file.
pub open spec fn torrent_of(v: BModel) -> Option<TorrentModel> {
    match v {
        BModel::Dict(d) => match text_at(d, "name"@) {
            Some(name) => if all_files(d, name).len() > 0 {
                Some(TorrentModel { name, files: all_files(d, name) })
            } else {
                None
            },
            None => None,
        },
        _ => None,
    }
}

/// What the bytes of metadata say.
pub open spec fn torrent_in(b: Seq<u8>) -> Option<TorrentModel> {
    match decoded(b) {
        Some(v) => torrent_of(v),
        None => None,
    }
}

/// The metadata of a single file is read as a torrent of that name with that file.
pub proof fn law_single_file(name: Seq<char>, length: i64)
    ensures
        torrent_in(
            enc(
                BModel::Dict(
                    with_bytes(with_int(Seq::empty(), "length"@, length), "name"@, key(name)),
                ),
            ),
        ) == Some(
            (TorrentModel { name, files: seq![FileModel { path: seq![name], length }] }),
        ),
{
    let depth = (MAX_DEPTH - 1) as nat;
    let p0: Pairs = Seq::empty();
    let p1 = with_int(p0, "length"@, length);
    let p2 = with_bytes(p1, "name"@, key(name));
    reveal_strlit("length");
    reveal_strlit("name");
    reveal_strlit("files");
    assert("length"@[0] != "name"@[0] && "files"@[0] != "name"@[0] && "files"@[0] != "length"@[0]);
    lemma_keys_differ("length"@, "name"@);
    lemma_keys_differ("files"@, "name"@);
    lemma_keys_differ("files"@, "length"@);
    lemma_put_encodable(p0, key("length"@), BModel::Int(length), depth);
    lemma_put_encodable(p1, key("name"@), BModel::Bytes(key(name)), depth);
    law_decode_encode(BModel::Dict(p2));
    law_put_lookup(p0, key("length"@), BModel::Int(length), key("files"@));
    law_put_lookup(p1, key("name"@), BModel::Bytes(key(name)), key("files"@));
    law_put_lookup(p1, key("name"@), BModel::Bytes(key(name)), key("length"@));
    assert(lookup(p0, key("files"@)) is None);
    encode_utf8_valid_utf8(name);
    encode_utf8_decode_utf8(name);
}

/// How a file is written in metadata.
pub open spec fn file_value(f: FileModel) -> BModel {
    BModel::Dict(
        put(
            with_int(Seq::empty(), "length"@, f.length),
            key("path"@),
            BModel::List(f.path.map_values(|p: Seq<char>| BModel::Bytes(key(p)))),
        ),
    )
}

/// How a torrent of several files is written in metadata.
pub open spec fn torrent_value(t: TorrentModel) -> BModel {
    BModel::Dict(
        with_bytes(
            put(
                Seq::empty(),
                key("files"@),
                BModel::List(t.files.map_values(|f: FileModel| file_value(f))),
            ),
            "name"@,
            key(t.name),
        ),
    )
}

proof fn lemma_path(s: Seq<Seq<char>>)
    ensures
        path_of(s.map_values(|p: Seq<char>| BModel::Bytes(key(p)))) == s,
    decreases s.len(),
{
    let f = |p: Seq<char>| BModel::Bytes(key(p));
    let v = s.map_values(f);
    if s.len() == 0 {
        assert(path_of(v) =~= s);
    } else {
        lemma_path(s.drop_last());
        assert(v.drop_last() =~= s.drop_last().map_values(f));
        encode_utf8_valid_utf8(s.last());
        encode_utf8_decode_utf8(s.last());
        assert(path_of(v) =~= s);
    }
}

proof fn lemma_file(f: FileModel, depth: nat)
    requires
        depth > 2,
    ensures
        file_of(file_value(f)) == Some(f),
        encodable(file_value(f), depth),
{
    let path = f.path.map_values(|p: Seq<char>| BModel::Bytes(key(p)));
    let inner = (depth - 1) as nat;
    let p0: Pairs = Seq::empty();
    let p1 = with_int(p0, "length"@, f.length);
    let v = BModel::List(path);
    reveal_strlit("length");
    reveal_strlit("path");
    assert("length"@[0] != "path"@[0]);
    lemma_keys_differ("length"@, "path"@);
    assert forall|i: int| 0 <= i < path.len() implies encodable(
        #[trigger] path[i],
        (inner - 1) as nat,
    ) by {}
    assert(encodable(v, inner));
    lemma_put_encodable(p0, key("length"@), BModel::Int(f.length), inner);
    lemma_put_encodable(p1, key("path"@), v, inner);
    law_put_lookup(p0, key("length"@), BModel::Int(f.length), key("length"@));
    law_put_lookup(p1, key("path"@), v, key("length"@));
    lemma_path(f.path);
}

proof fn lemma_files(s: Seq<FileModel>, depth: nat)
    requires
        depth > 2,
    ensures
        files_of(s.map_values(|f: FileModel| file_value(f))) == s,
        forall|i: int| 0 <= i < s.len() ==> encodable(file_value(#[trigger] s[i]), depth),
    decreases s.len(),
{
    let g = |f: FileModel| file_value(f);
    let v = s.map_values(g);
    if s.len() == 0 {
        assert(files_of(v) =~= s);
    } else {
        lemma_files(s.drop_last(), depth);
        assert(v.drop_last() =~= s.drop_last().map_values(g));
        lemma_file(s.last(), depth);
        assert(files_of(v) =~= s);
        assert forall|i: int| 0 <= i < s.len() implies encodable(
            file_value(#[trigger] s[i]),
            depth,
        ) by {
            if i < s.len() - 1 {
                assert(s[i] == s.drop_last()[i]);
            }
        }
    }
}

/// The metadata of a torrent of several files is read as that torrent.
pub proof fn law_listed_files(t: TorrentModel)
    requires
        t.files.len() > 0,
    ensures
        torrent_in(enc(torrent_value(t))) == Some(t),
{
    let depth = (MAX_DEPTH - 1) as nat;
    let files = t.files.map_values(|f: FileModel| file_value(f));
    let v = BModel::List(files);
    let p0: Pairs = Seq::empty();
    let p1 = put(p0, key("files"@), v);
    let name = BModel::Bytes(key(t.name));
    reveal_strlit("files");
    reveal_strlit("name");
    assert("files"@[0] != "name"@[0]);
    lemma_keys_differ("files"@, "name"@);
    lemma_files(t.files, (depth - 1) as nat);
    assert forall|i: int| 0 <= i < files.len() implies encodable(
        #[trigger] files[i],
        (depth - 1) as nat,
    ) by {
        assert(files[i] == file_value(t.files[i]));
    }
    assert(encodable(v, depth));
    lemma_put_encodable(p0, key("files"@), v, depth);
    lemma_put_encodable(p1, key("name"@), name, depth);
    law_decode_encode(torrent_value(t));
    law_put_lookup(p0, key("files"@), v, key("files"@));
    law_put_lookup(p1, key("name"@), name, key("files"@));
    encode_utf8_valid_utf8(t.name);
    encode_utf8_decode_utf8(t.name);
}

/// A torrent that is reported has a file at least.
pub proof fn law_no_empty_torrent(b: Seq<u8>)
    ensures
        torrent_in(b) is Some ==> torrent_in(b)->0.files.len() > 0,
{
}

/// Metadata without a list of files is that of a single file, whatever else it says: the file has
/// the name of the torrent and the length that is given under `length`.
pub proof fn law_single_file_whatever_else(b: Seq<u8>, d: Pairs, name: Seq<u8>, n: i64)
    requires
        decoded(b) == Some(BModel::Dict(d)),
        bytes_at(d, "name"@) == Some(name),
        valid_utf8(name),
        list_at(d, "files"@) is None,
        int_at(d, "length"@) == Some(n),
    ensures
        torrent_in(b) is Some,
        torrent_in(b)->0.name == decode_utf8(name),
        torrent_in(b)->0.files.len() == 1,
        torrent_in(b)->0.files[0].path.len() == 1,
        torrent_in(b)->0.files[0].path[0] == decode_utf8(name),
        torrent_in(b)->0.files[0].length == n,
{
}

/// Metadata that is no dictionary, that has no readable name, or that has neither a list of files
/// nor a length, is that of no torrent.
pub proof fn law_no_torrent(b: Seq<u8>)
    ensures
        match decoded(b) {
            Some(BModel::Dict(d)) => {
                &&& bytes_at(d, "name"@) is None ==> torrent_in(b) is None
                &&& (bytes_at(d, "name"@) is Some && !valid_utf8(bytes_at(d, "name"@)->0))
                    ==> torrent_in(b) is None
                &&& (list_at(d, "files"@) is None && int_at(d, "length"@) is None) ==> torrent_in(
                    b,
                ) is None
            },
            _ => torrent_in(b) is None,
        },
{
}

/// A value describes a file: it has a length and a path.
pub open spec fn describes(v: BModel) -> bool {
    match v {
        BModel::Dict(d) => int_at(d, "length"@) is Some && list_at(d, "path"@) is Some,
        _ => false,
    }
}

/// A file has the length and the path that a value gives; the path is readable in all its parts.
pub open spec fn is_described_by(f: FileModel, v: BModel) -> bool {
    match v {
        BModel::Dict(d) => {
            &&& int_at(d, "length"@) == Some(f.length)
            &&& match list_at(d, "path"@) {
                Some(parts) => {
                    &&& f.path.len() == parts.len()
                    &&& forall|j: int|
                        0 <= j < parts.len() ==> parts[j] == BModel::Bytes(
                            key(#[trigger] f.path[j]),
                        )
                },
                None => false,
            }
        },
        _ => false,
    }
}

/// A part of a path is readable.
pub open spec fn is_text(v: BModel) -> bool {
    match v {
        BModel::Bytes(b) => valid_utf8(b),
        _ => false,
    }
}

proof fn lemma_readable_path(s: Seq<BModel>)
    requires
        forall|j: int| 0 <= j < s.len() ==> is_text(#[trigger] s[j]),
    ensures
        path_of(s).len() == s.len(),
        forall|j: int| 0 <= j < s.len() ==> s[j] == BModel::Bytes(key(#[trigger] path_of(s)[j])),
    decreases s.len(),
{
    if s.len() > 0 {
        let front = s.drop_last();
        assert forall|j: int| 0 <= j < front.len() implies is_text(#[trigger] front[j]) by {
            assert(front[j] == s[j]);
        }
        lemma_readable_path(front);
        assert(is_text(s[s.len() - 1]));
        if let BModel::Bytes(b) = s.last() {
            decode_utf8_encode_utf8(b);
        }
        assert forall|j: int| 0 <= j < s.len() implies s[j] == BModel::Bytes(
            key(#[trigger] path_of(s)[j]),
        ) by {
            if j < front.len() {
                assert(front[j] == s[j]);
                assert(path_of(s)[j] == path_of(front)[j]);
            }
        }
    }
}

proof fn lemma_described_files(s: Seq<BModel>)
    requires
        forall|i: int| 0 <= i < s.len() ==> describes(#[trigger] s[i]),
    ensures
        files_of(s).len() == s.len(),
        forall|i: int| 0 <= i < s.len() ==> file_of(#[trigger] s[i]) == Some(files_of(s)[i]),
    decreases s.len(),
{
    if s.len() > 0 {
        let front = s.drop_last();
        assert forall|i: int| 0 <= i < front.len() implies describes(#[trigger] front[i]) by {
            assert(front[i] == s[i]);
        }
        lemma_described_files(front);
        assert(describes(s[s.len() - 1]));
        assert forall|i: int| 0 <= i < s.len() implies file_of(#[trigger] s[i]) == Some(
            files_of(s)[i],
        ) by {
            if i < front.len() {
                assert(front[i] == s[i]);
            }
        }
    }
}

/// Metadata with a list of files is that of a torrent with these files, in their order, each with
/// the length and the path that the list gives, whatever else the metadata says.
pub proof fn law_listed_files_whatever_else(
    b: Seq<u8>,
    d: Pairs,
    name: Seq<u8>,
    l: Seq<BModel>,
)
    requires
        decoded(b) == Some(BModel::Dict(d)),
        bytes_at(d, "name"@) == Some(name),
        valid_utf8(name),
        list_at(d, "files"@) == Some(l),
        l.len() > 0,
        forall|i: int| 0 <= i < l.len() ==> describes(#[trigger] l[i]),
        forall|i: int, j: int|
            0 <= i < l.len() && 0 <= j < list_at(l[i]->Dict_0, "path"@)->0.len() ==> is_text(
                #[trigger] list_at(l[i]->Dict_0, "path"@)->0[j],
            ),
    ensures
        torrent_in(b) is Some,
        torrent_in(b)->0.name == decode_utf8(name),
        torrent_in(b)->0.files.len() == l.len(),
        forall|i: int|
            0 <= i < l.len() ==> is_described_by(#[trigger] torrent_in(b)->0.files[i], l[i]),
{
    lemma_described_files(l);
    let files = torrent_in(b)->0.files;
    assert forall|i: int| 0 <= i < l.len() implies is_described_by(#[trigger] files[i], l[i]) by {
        assert(describes(l[i]));
        assert(file_of(l[i]) == Some(files_of(l)[i]));
        let parts = list_at(l[i]->Dict_0, "path"@)->0;
        assert forall|j: int| 0 <= j < parts.len() implies is_text(#[trigger] parts[j]) by {
            assert(is_text(list_at(l[i]->Dict_0, "path"@)->0[j]));
        }
        lemma_readable_path(parts);
    }
}

proof fn lemma_files_without(s: Seq<BModel>, i: int)
    requires
        0 <= i < s.len(),
        !describes(s[i]),
    ensures
        files_of(s) == files_of(s.remove(i)),
    decreases s.len(),
{
    if i == s.len() - 1 {
        assert(s.remove(i) =~= s.drop_last());
    } else {
        lemma_files_without(s.drop_last(), i);
        assert(s.remove(i).drop_last() =~= s.drop_last().remove(i));
        assert(s.remove(i).last() == s.last());
    }
}

/// What describes no file makes no difference in a list of files.
pub proof fn law_undescribed_file_makes_no_difference(
    b: Seq<u8>,
    without: Seq<u8>,
    d: Pairs,
    e: Pairs,
    l: Seq<BModel>,
    i: int,
)
    requires
        decoded(b) == Some(BModel::Dict(d)),
        decoded(without) == Some(BModel::Dict(e)),
        bytes_at(d, "name"@) == bytes_at(e, "name"@),
        list_at(d, "files"@) == Some(l),
        0 <= i < l.len(),
        !describes(l[i]),
        list_at(e, "files"@) == Some(l.remove(i)),
    ensures
        torrent_in(b) == torrent_in(without),
{
    lemma_files_without(l, i);
}

proof fn lemma_path_without(s: Seq<BModel>, i: int)
    requires
        0 <= i < s.len(),
        !is_text(s[i]),
    ensures
        path_of(s) == path_of(s.remove(i)),
    decreases s.len(),
{
    if i == s.len() - 1 {
        assert(s.remove(i) =~= s.drop_last());
    } else {
        lemma_path_without(s.drop_last(), i);
        assert(s.remove(i).drop_last() =~= s.drop_last().remove(i));
        assert(s.remove(i).last() == s.last());
    }
}

proof fn lemma_files_same_but(s: Seq<BModel>, i: int, v: BModel)
    requires
        0 <= i < s.len(),
        file_of(s[i]) == file_of(v),
    ensures
        files_of(s) == files_of(s.update(i, v)),
    decreases s.len(),
{
    if i == s.len() - 1 {
        assert(s.update(i, v).drop_last() =~= s.drop_last());
    } else {
        lemma_files_same_but(s.drop_last(), i, v);
        assert(s.update(i, v).drop_last() =~= s.drop_last().update(i, v));
        assert(s.update(i, v).last() == s.last());
    }
}

/// What is not readable makes no difference in the path of a file.
pub proof fn law_unreadable_part_makes_no_difference(
    b: Seq<u8>,
    without: Seq<u8>,
    d: Pairs,
    e: Pairs,
    l: Seq<BModel>,
    i: int,
    f: Pairs,
    j: int,
)
    requires
        decoded(b) == Some(BModel::Dict(d)),
        decoded(without) == Some(BModel::Dict(e)),
        bytes_at(d, "name"@) == bytes_at(e, "name"@),
        list_at(d, "files"@) == Some(l),
        0 <= i < l.len(),
        describes(l[i]),
        0 <= j < list_at(l[i]->Dict_0, "path"@)->0.len(),
        !is_text(list_at(l[i]->Dict_0, "path"@)->0[j]),
        int_at(f, "length"@) == int_at(l[i]->Dict_0, "length"@),
        list_at(f, "path"@) == Some(list_at(l[i]->Dict_0, "path"@)->0.remove(j)),
        list_at(e, "files"@) == Some(l.update(i, BModel::Dict(f))),
    ensures
        torrent_in(b) == torrent_in(without),
{
    lemma_path_without(list_at(l[i]->Dict_0, "path"@)->0, j);
    lemma_files_same_but(l, i, BModel::Dict(f));
}

fn read_path(parts: &Vec<BVal>) -> (r: Vec<String>)
    ensures
        text_list(r@) == path_of(list_model(parts@)),
{
    let ghost s = list_model(parts@);
    let mut out: Vec<String> = Vec::new();
    let mut i: usize = 0;
    assert(text_list(out@) =~= path_of(s.take(0)));
    while i < parts.len()
        invariant
            i <= parts@.len(),
            s == list_model(parts@),
            text_list(out@) == path_of(s.take(i as int)),
        decreases parts.len() - i,
    {
        proof {
            assert(s.take(i + 1).drop_last() =~= s.take(i as int));
            assert(s.take(i + 1).last() == s[i as int]);
            assert(s[i as int] == parts@[i as int]@);
        }
        if let BVal::Bytes(b) = &parts[i] {
            if let Some(t) = utf8_text(b.as_slice()) {
                let ghost o0 = text_list(out@);
                out.push(t);
                assert(text_list(out@) =~= o0.push(t@));
            }
        }
        i += 1;
    }
    assert(s.take(i as int) =~= s);
    out
}

fn read_file(v: &BVal) -> (r: Option<TorrentFile>)
    ensures
        match r {
            Some(f) => file_of(v@) == Some(f@),
            None => file_of(v@) is None,
        },
{
    match v {
        BVal::Dict(d) => match (d.get_int("length"), d.get_list("path")) {
            (Some(length), Some(parts)) => Some(TorrentFile { path: read_path(parts), length }),
            _ => None,
        },
        _ => None,
    }
}

fn read_files(items: &Vec<BVal>) -> (r: Vec<TorrentFile>)
    ensures
        file_list(r@) == files_of(list_model(items@)),
{
    let ghost s = list_model(items@);
    let mut out: Vec<TorrentFile> = Vec::new();
    let mut i: usize = 0;
    assert(file_list(out@) =~= files_of(s.take(0)));
    while i < items.len()
        invariant
            i <= items@.len(),
            s == list_model(items@),
            file_list(out@) == files_of(s.take(i as int)),
        decreases items.len() - i,
    {
        proof {
            assert(s.take(i + 1).drop_last() =~= s.take(i as int));
            assert(s.take(i + 1).last() == s[i as int]);
            assert(s[i as int] == items@[i as int]@);
        }
        if let Some(f) = read_file(&items[i]) {
            let ghost o0 = file_list(out@);
            out.push(f);
            assert(file_list(out@) =~= o0.push(f@));
        }
        i += 1;
    }
    assert(s.take(i as int) =~= s);
    out
}

fn read_all_files(d: &Dict, name: &String) -> (r: Vec<TorrentFile>)
    ensures
        file_list(r@) == all_files(d@, name@),
{
    match d.get_list("files") {
        Some(items) => read_files(items),
        None => {
            let mut out: Vec<TorrentFile> = Vec::new();
            match d.get_int("length") {
                Some(length) => {
                    let mut path: Vec<String> = Vec::new();
                    path.push(name.clone());
                    assert(text_list(path@) =~= seq![name@]);
                    out.push(TorrentFile { path, length });
                    assert(file_list(out@) =~= seq![FileModel { path: seq![name@], length }]);
                },
                None => {
                    assert(file_list(out@) =~= Seq::empty());
                },
            }
            out
        },
    }
}

/// Reads metadata: the name and the files of a torrent.
pub fn read_torrent(metadata: &[u8]) -> (r: Option<Torrent>)
    ensures
        match r {
            Some(t) => torrent_in(metadata@) == Some(t@),
            None => torrent_in(metadata@) is None,
        },
{
    match decode(metadata) {
        Some(BVal::Dict(d)) => match d.get_bytes("name") {
            Some(b) => match utf8_text(b.as_slice()) {
                Some(name) => {
                    let files = read_all_files(&d, &name);
                    if files.len() > 0 {
                        Some(Torrent { name, files })
                    } else {
                        None
                    }
                },
                None => None,
            },
            None => None,
        },
        _ => None,
    }
}

} // verus!
