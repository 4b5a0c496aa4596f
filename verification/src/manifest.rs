//! The Cairn manifest: the canonical, cross-language description of a cache
//! entry.
//!
//! A manifest records the inputs that were hashed to produce a cache key, the
//! outputs that were captured, and provenance metadata. Manifests are written
//! with fixed field names and one canonical byte layout, so that every tool
//! that reads or writes the store agrees on them byte for byte.

use vstd::prelude::*;
use vstd::utf8::encode_utf8;
use crate::hash::{canonical_digest, fnv_fold, lemma_fnv_fold_append, Hasher, FNV_OFFSET_BASIS};
use crate::text::{
    ascii_digits_value, decimal, decimal_bytes, lemma_decimal_bytes_reads_back, push_decimal_bytes,
};
use crate::json::{
    document_result, encode_value, json_get, lemma_array_json_view, lemma_object_json_view, Json,
    JsonView,
};

verus! {

/// Current manifest format version. Bump on incompatible changes.
pub const FORMAT_VERSION: u64 = 1;

/// A single hashed file: a logical path (forward slashes), the canonical
/// digest of its content, and its size in bytes.
#[derive(Debug, PartialEq)]
pub struct FileEntry {
    /// Logical path (as supplied on the command line), using forward slashes.
    pub path: String,
    /// Content digest (canonical 16-char hex).
    pub digest: String,
    /// Size in bytes.
    pub size: u64,
}

/// A single hashed input file.
pub type InputEntry = FileEntry;

/// A single captured output file.
pub type OutputEntry = FileEntry;

/// The mathematical value of a [`FileEntry`].
#[verifier::ext_equal]
pub struct EntryView {
    pub path: Seq<char>,
    pub digest: Seq<char>,
    pub size: u64,
}

impl View for FileEntry {
    type V = EntryView;

    open spec fn view(&self) -> EntryView {
        EntryView { path: self.path@, digest: self.digest@, size: self.size }
    }
}

impl Clone for FileEntry {
    fn clone(&self) -> (e: FileEntry)
        ensures
            e@ == self@,
    {
        FileEntry { path: self.path.clone(), digest: self.digest.clone(), size: self.size }
    }
}

/// The views of a sequence of entries.
pub open spec fn entries_view(es: Seq<FileEntry>) -> Seq<EntryView> {
    es.map_values(|e: FileEntry| e@)
}

/// The views of a sequence of strings.
pub open spec fn strings_view(ss: Seq<String>) -> Seq<Seq<char>> {
    ss.map_values(|s: String| s@)
}

/// A complete cache manifest.
#[derive(Debug, PartialEq)]
pub struct Manifest {
    /// Format version.
    pub version: u64,
    /// Tool that produced this manifest, e.g. "cairn-rust" or "cairn-go".
    pub producer: String,
    /// The overall cache key derived from inputs (+ optional command).
    pub key: String,
    /// The command associated with this entry, if any (empty for pure hashing).
    pub command: Vec<String>,
    /// Sorted input entries.
    pub inputs: Vec<InputEntry>,
    /// Sorted output entries.
    pub outputs: Vec<OutputEntry>,
}

/// The mathematical value of a [`Manifest`].
#[verifier::ext_equal]
pub struct ManifestView {
    pub version: u64,
    pub producer: Seq<char>,
    pub key: Seq<char>,
    pub command: Seq<Seq<char>>,
    pub inputs: Seq<EntryView>,
    pub outputs: Seq<EntryView>,
}

impl View for Manifest {
    type V = ManifestView;

    open spec fn view(&self) -> ManifestView {
        ManifestView {
            version: self.version,
            producer: self.producer@,
            key: self.key@,
            command: strings_view(self.command@),
            inputs: entries_view(self.inputs@),
            outputs: entries_view(self.outputs@),
        }
    }
}

impl Clone for Manifest {
    fn clone(&self) -> (m: Manifest)
        ensures
            m@ == self@,
    {
        let m = Manifest {
            version: self.version,
            producer: self.producer.clone(),
            key: self.key.clone(),
            command: self.command.clone(),
            inputs: self.inputs.clone(),
            outputs: self.outputs.clone(),
        };
        proof {
            assert forall|i: int| 0 <= i < m.inputs@.len() implies (#[trigger] m.inputs@[i])@
                == self.inputs@[i]@ by {
                assert(cloned::<FileEntry>(self.inputs@[i], m.inputs@[i]));
            }
            assert forall|i: int| 0 <= i < m.outputs@.len() implies (#[trigger] m.outputs@[i])@
                == self.outputs@[i]@ by {
                assert(cloned::<FileEntry>(self.outputs@[i], m.outputs@[i]));
            }
            assert forall|i: int| 0 <= i < m.command@.len() implies (#[trigger] m.command@[i])@
                == self.command@[i]@ by {
                assert(cloned::<String>(self.command@[i], m.command@[i]));
            }
            assert(strings_view(m.command@) =~= strings_view(self.command@));
            assert(entries_view(m.inputs@) =~= entries_view(self.inputs@));
            assert(entries_view(m.outputs@) =~= entries_view(self.outputs@));
        }
        m
    }
}

/// The bytes `"cairn-key\0"` that open every key stream.
pub open spec fn key_preamble() -> Seq<u8> {
    seq![99u8, 97u8, 105u8, 114u8, 110u8, 45u8, 107u8, 101u8, 121u8, 0u8]
}

/// The bytes `"cmd\0"` that separate the inputs from the command.
pub open spec fn command_marker() -> Seq<u8> {
    seq![99u8, 109u8, 100u8, 0u8]
}

/// The stream contributed by one input: `path NUL digest NUL size NUL`.
pub open spec fn entry_stream(e: EntryView) -> Seq<u8> {
    encode_utf8(e.path) + seq![0u8] + encode_utf8(e.digest) + seq![0u8] + decimal_bytes(
        e.size as nat,
    ) + seq![0u8]
}

/// The streams of all inputs, in the order given.
pub open spec fn entries_stream(es: Seq<EntryView>) -> Seq<u8>
    decreases es.len(),
{
    if es.len() == 0 {
        Seq::empty()
    } else {
        entries_stream(es.drop_last()) + entry_stream(es.last())
    }
}

/// The streams of all command arguments, each followed by NUL, in order.
pub open spec fn args_stream(args: Seq<Seq<char>>) -> Seq<u8>
    decreases args.len(),
{
    if args.len() == 0 {
        Seq::empty()
    } else {
        args_stream(args.drop_last()) + encode_utf8(args.last()) + seq![0u8]
    }
}

/// The canonical key stream of a build step.
pub open spec fn key_stream(inputs: Seq<EntryView>, command: Seq<Seq<char>>) -> Seq<u8> {
    key_preamble() + decimal_bytes(FORMAT_VERSION as nat) + seq![0u8] + entries_stream(inputs)
        + command_marker() + args_stream(command)
}

/// The cache key of a build step: the canonical digest of its key stream.
pub open spec fn spec_key(inputs: Seq<EntryView>, command: Seq<Seq<char>>) -> Seq<char> {
    canonical_digest(key_stream(inputs, command))
}

/// Feeds `data` to `h`, keeping track of the whole stream fed so far.
fn feed(h: &mut Hasher, data: &[u8], Ghost(fed): Ghost<Seq<u8>>)
    requires
        old(h)@ == fnv_fold(FNV_OFFSET_BASIS, fed),
    ensures
        final(h)@ == fnv_fold(FNV_OFFSET_BASIS, fed + data@),
{
    h.update(data);
    proof {
        lemma_fnv_fold_append(FNV_OFFSET_BASIS, fed, data@);
    }
}

impl Manifest {
    /// Compute the canonical cache key from a set of inputs and a command.
    ///
    /// The key is the FNV-1a digest of the canonical byte stream:
    ///
    /// ```text
    /// "cairn-key\x00" version "\x00"
    /// for each input (in the order given; callers sort by path):
    ///     path "\x00" digest "\x00" size "\x00"
    /// "cmd\x00"
    /// for each command arg (in order):
    ///     arg "\x00"
    /// ```
    pub fn compute_key(inputs: &[InputEntry], command: &[String]) -> (key: String)
        ensures
            key@ == spec_key(entries_view(inputs@), strings_view(command@)),
    {
        let ghost es = entries_view(inputs@);
        let ghost args = strings_view(command@);
        let mut h = Hasher::new();
        let nul: [u8; 1] = [0u8];
        // "cairn-key\0"
        let preamble: [u8; 10] = [99u8, 97, 105, 114, 110, 45, 107, 101, 121, 0];
        assert(preamble@ =~= key_preamble());
        assert(fnv_fold(FNV_OFFSET_BASIS, Seq::empty()) == FNV_OFFSET_BASIS);
        feed(&mut h, &preamble, Ghost(Seq::empty()));
        let ghost mut fed: Seq<u8> = Seq::<u8>::empty() + preamble@;
        let mut version: Vec<u8> = Vec::new();
        push_decimal_bytes(&mut version, FORMAT_VERSION);
        feed(&mut h, version.as_slice(), Ghost(fed));
        proof {
            fed = fed + version@;
        }
        feed(&mut h, &nul, Ghost(fed));
        proof {
            fed = fed + nul@;
            assert(fed =~= key_preamble() + decimal_bytes(FORMAT_VERSION as nat) + seq![0u8]
                + entries_stream(es.take(0)));
        }
        let n = inputs.len();
        let mut i: usize = 0;
        while i < n
            invariant
                n == inputs@.len(),
                es == entries_view(inputs@),
                i <= n,
                nul@ == seq![0u8],
                fed == key_preamble() + decimal_bytes(FORMAT_VERSION as nat) + seq![0u8]
                    + entries_stream(es.take(i as int)),
                h@ == fnv_fold(FNV_OFFSET_BASIS, fed),
            decreases n - i,
        {
            let e = &inputs[i];
            let ghost before = fed;
            feed(&mut h, e.path.as_str().as_bytes(), Ghost(fed));
            proof {
                fed = fed + encode_utf8(e.path@);
            }
            feed(&mut h, &nul, Ghost(fed));
            proof {
                fed = fed + nul@;
            }
            feed(&mut h, e.digest.as_str().as_bytes(), Ghost(fed));
            proof {
                fed = fed + encode_utf8(e.digest@);
            }
            feed(&mut h, &nul, Ghost(fed));
            proof {
                fed = fed + nul@;
            }
            let mut size: Vec<u8> = Vec::new();
            push_decimal_bytes(&mut size, e.size);
            feed(&mut h, size.as_slice(), Ghost(fed));
            proof {
                fed = fed + size@;
            }
            feed(&mut h, &nul, Ghost(fed));
            proof {
                fed = fed + nul@;
                assert(es.take(i + 1).drop_last() =~= es.take(i as int));
                assert(es.take(i + 1).last() == e@);
                assert(fed =~= before + entry_stream(e@));
                assert(fed =~= key_preamble() + decimal_bytes(FORMAT_VERSION as nat) + seq![0u8]
                    + entries_stream(es.take(i + 1)));
            }
            i = i + 1;
        }
        proof {
            assert(es.take(n as int) =~= es);
        }
        // "cmd\0"
        let marker: [u8; 4] = [99u8, 109, 100, 0];
        assert(marker@ =~= command_marker());
        feed(&mut h, &marker, Ghost(fed));
        proof {
            fed = fed + marker@;
            assert(fed =~= key_preamble() + decimal_bytes(FORMAT_VERSION as nat) + seq![0u8]
                + entries_stream(es) + command_marker() + args_stream(args.take(0)));
        }
        let m = command.len();
        let mut j: usize = 0;
        while j < m
            invariant
                m == command@.len(),
                args == strings_view(command@),
                j <= m,
                nul@ == seq![0u8],
                fed == key_preamble() + decimal_bytes(FORMAT_VERSION as nat) + seq![0u8]
                    + entries_stream(es) + command_marker() + args_stream(args.take(j as int)),
                h@ == fnv_fold(FNV_OFFSET_BASIS, fed),
            decreases m - j,
        {
            let a = &command[j];
            let ghost before = fed;
            feed(&mut h, a.as_str().as_bytes(), Ghost(fed));
            proof {
                fed = fed + encode_utf8(a@);
            }
            feed(&mut h, &nul, Ghost(fed));
            proof {
                fed = fed + nul@;
                assert(args.take(j + 1).drop_last() =~= args.take(j as int));
                assert(args.take(j + 1).last() == a@);
                assert(fed =~= key_preamble() + decimal_bytes(FORMAT_VERSION as nat) + seq![0u8]
                    + entries_stream(es) + command_marker() + args_stream(args.take(j + 1)));
            }
            j = j + 1;
        }
        proof {
            assert(args.take(m as int) =~= args);
            assert(fed =~= key_stream(es, args));
        }
        h.finalize_hex()
    }
}

/// The JSON value of one entry: `{"path":…,"digest":…,"size":…}`.
pub open spec fn entry_json(e: EntryView) -> JsonView {
    JsonView::Object(
        seq![
            ("path"@, JsonView::Str(e.path)),
            ("digest"@, JsonView::Str(e.digest)),
            ("size"@, JsonView::Uint(e.size)),
        ],
    )
}

/// The JSON array of a sequence of entries.
pub open spec fn entries_json(es: Seq<EntryView>) -> JsonView {
    JsonView::Array(es.map_values(|e: EntryView| entry_json(e)))
}

/// The JSON array of the command's arguments.
pub open spec fn command_json(args: Seq<Seq<char>>) -> JsonView {
    JsonView::Array(args.map_values(|a: Seq<char>| JsonView::Str(a)))
}

/// The JSON value of a manifest, with its fields in canonical order.
pub open spec fn manifest_json(m: ManifestView) -> JsonView {
    JsonView::Object(
        seq![
            ("version"@, JsonView::Uint(m.version)),
            ("producer"@, JsonView::Str(m.producer)),
            ("key"@, JsonView::Str(m.key)),
            ("command"@, command_json(m.command)),
            ("inputs"@, entries_json(m.inputs)),
            ("outputs"@, entries_json(m.outputs)),
        ],
    )
}

fn entry_to_json(e: &FileEntry) -> (j: Json)
    ensures
        j@ == entry_json(e@),
{
    let members = vec![
        ("path".to_owned(), Json::Str(e.path.clone())),
        ("digest".to_owned(), Json::Str(e.digest.clone())),
        ("size".to_owned(), Json::Uint(e.size)),
    ];
    let ghost mv = members;
    let j = Json::Object(members);
    proof {
        lemma_object_json_view(mv);
        assert(crate::json::members_view(mv@) =~= seq![
            ("path"@, JsonView::Str(e.path@)),
            ("digest"@, JsonView::Str(e.digest@)),
            ("size"@, JsonView::Uint(e.size)),
        ]);
    }
    j
}

fn entries_to_json(es: &Vec<FileEntry>) -> (j: Json)
    ensures
        j@ == entries_json(entries_view(es@)),
{
    let mut items: Vec<Json> = Vec::new();
    let n = es.len();
    let mut i: usize = 0;
    while i < n
        invariant
            n == es@.len(),
            i <= n,
            crate::json::jsons_view(items@) =~= entries_view(es@).take(i as int).map_values(
                |e: EntryView| entry_json(e),
            ),
        decreases n - i,
    {
        let x = entry_to_json(&es[i]);
        let ghost xv = x@;
        let ghost before = items@;
        items.push(x);
        proof {
            assert(crate::json::jsons_view(items@) =~= crate::json::jsons_view(before).push(xv));
            assert(entries_view(es@).take(i + 1) =~= entries_view(es@).take(i as int).push(es@[i as int]@));
        }
        i = i + 1;
    }
    let ghost iv = items;
    let j = Json::Array(items);
    proof {
        lemma_array_json_view(iv);
        assert(entries_view(es@).take(n as int) =~= entries_view(es@));
    }
    j
}

fn command_to_json(args: &Vec<String>) -> (j: Json)
    ensures
        j@ == command_json(strings_view(args@)),
{
    let mut items: Vec<Json> = Vec::new();
    let n = args.len();
    let mut i: usize = 0;
    while i < n
        invariant
            n == args@.len(),
            i <= n,
            crate::json::jsons_view(items@) =~= strings_view(args@).take(i as int).map_values(
                |a: Seq<char>| JsonView::Str(a),
            ),
        decreases n - i,
    {
        let x = Json::Str(args[i].clone());
        let ghost xv = x@;
        let ghost before = items@;
        items.push(x);
        proof {
            assert(crate::json::jsons_view(items@) =~= crate::json::jsons_view(before).push(xv));
            assert(strings_view(args@).take(i + 1) =~= strings_view(args@).take(i as int).push(args@[i as int]@));
        }
        i = i + 1;
    }
    let ghost iv = items;
    let j = Json::Array(items);
    proof {
        lemma_array_json_view(iv);
        assert(strings_view(args@).take(n as int) =~= strings_view(args@));
    }
    j
}

impl Manifest {
    /// The manifest as a JSON value, fields in canonical order.
    fn to_json_value(&self) -> (j: Json)
        ensures
            j@ == manifest_json(self@),
    {
        let members = vec![
            ("version".to_owned(), Json::Uint(self.version)),
            ("producer".to_owned(), Json::Str(self.producer.clone())),
            ("key".to_owned(), Json::Str(self.key.clone())),
            ("command".to_owned(), command_to_json(&self.command)),
            ("inputs".to_owned(), entries_to_json(&self.inputs)),
            ("outputs".to_owned(), entries_to_json(&self.outputs)),
        ];
        let ghost mv = members;
        let j = Json::Object(members);
        proof {
            lemma_object_json_view(mv);
            assert(crate::json::members_view(mv@) =~= match manifest_json(self@) {
                JsonView::Object(ms) => ms,
                _ => Seq::empty(),
            });
        }
        j
    }

    /// Serialize to canonical JSON.
    pub fn to_json(&self) -> (s: String)
        ensures
            s@ == encode_value(manifest_json(self@)),
    {
        self.to_json_value().encode()
    }
}

/// The unsigned integer stored under `key` in `doc`, if there is one.
pub open spec fn get_uint(doc: JsonView, key: Seq<char>) -> Option<u64> {
    match json_get(doc, key) {
        Some(JsonView::Uint(n)) => Some(n),
        _ => None,
    }
}

/// The string stored under `key` in `doc`, if there is one.
pub open spec fn get_str(doc: JsonView, key: Seq<char>) -> Option<Seq<char>> {
    match json_get(doc, key) {
        Some(JsonView::Str(t)) => Some(t),
        _ => None,
    }
}

/// The command arguments held by JSON `items`, or the error for the first
/// item that is not a string.
pub open spec fn command_from(items: Seq<JsonView>) -> Result<Seq<Seq<char>>, Seq<char>>
    decreases items.len(),
{
    if items.len() == 0 {
        Ok(Seq::empty())
    } else {
        match command_from(items.drop_last()) {
            Err(e) => Err(e),
            Ok(args) => match items.last() {
                JsonView::Str(t) => Ok(args.push(t)),
                _ => Err("command arg not a string"@),
            },
        }
    }
}

/// The entry held by one JSON item, or the error for its first missing field.
pub open spec fn entry_from(item: JsonView) -> Result<EntryView, Seq<char>> {
    match get_str(item, "path"@) {
        None => Err("entry missing 'path'"@),
        Some(path) => match get_str(item, "digest"@) {
            None => Err("entry missing 'digest'"@),
            Some(digest) => match get_uint(item, "size"@) {
                None => Err("entry missing 'size'"@),
                Some(size) => Ok(EntryView { path, digest, size }),
            },
        },
    }
}

/// The entries held by JSON `items`, or the error for the first bad one.
pub open spec fn entries_from_items(items: Seq<JsonView>) -> Result<Seq<EntryView>, Seq<char>>
    decreases items.len(),
{
    if items.len() == 0 {
        Ok(Seq::empty())
    } else {
        match entries_from_items(items.drop_last()) {
            Err(e) => Err(e),
            Ok(es) => match entry_from(items.last()) {
                Err(e) => Err(e),
                Ok(x) => Ok(es.push(x)),
            },
        }
    }
}

/// The entries held by a JSON value, which must be an array.
pub open spec fn entries_from(v: JsonView) -> Result<Seq<EntryView>, Seq<char>> {
    match v {
        JsonView::Array(items) => entries_from_items(items),
        _ => Err("expected array of entries"@),
    }
}

/// The manifest held by a JSON document, or the error for the first field,
/// in the order version, producer, key, command, inputs, outputs, that is
/// missing or malformed.
pub open spec fn manifest_from_doc(doc: JsonView) -> Result<ManifestView, Seq<char>> {
    match get_uint(doc, "version"@) {
        None => Err("missing 'version'"@),
        Some(version) => match get_str(doc, "producer"@) {
            None => Err("missing 'producer'"@),
            Some(producer) => match get_str(doc, "key"@) {
                None => Err("missing 'key'"@),
                Some(key) => match json_get(doc, "command"@) {
                    Some(JsonView::Array(items)) => match command_from(items) {
                        Err(e) => Err(e),
                        Ok(command) => match json_get(doc, "inputs"@) {
                            None => Err("missing 'inputs'"@),
                            Some(iv) => match entries_from(iv) {
                                Err(e) => Err(e),
                                Ok(inputs) => match json_get(doc, "outputs"@) {
                                    None => Err("missing 'outputs'"@),
                                    Some(ov) => match entries_from(ov) {
                                        Err(e) => Err(e),
                                        Ok(outputs) => Ok(
                                            ManifestView {
                                                version,
                                                producer,
                                                key,
                                                command,
                                                inputs,
                                                outputs,
                                            },
                                        ),
                                    },
                                },
                            },
                        },
                    },
                    _ => Err("missing 'command'"@),
                },
            },
        },
    }
}

/// The outcome of reading a manifest from text: the JSON error, described
/// with its byte offset, or the outcome of reading the document.
pub open spec fn manifest_result(text: Seq<char>) -> Result<ManifestView, Seq<char>> {
    match document_result(text) {
        Err((m, off)) => Err("JSON parse error at byte "@ + decimal(off as nat) + ": "@ + m),
        Ok(doc) => manifest_from_doc(doc),
    }
}

fn field_str(doc: &Json, key: &str) -> (r: Option<String>)
    ensures
        (match r {
            Some(t) => Some(t@),
            None => None,
        }) == get_str(doc@, key@),
{
    match doc.get(key) {
        Some(v) => match v.as_str() {
            Some(t) => Some(t.to_owned()),
            None => None,
        },
        None => None,
    }
}

fn field_uint(doc: &Json, key: &str) -> (r: Option<u64>)
    ensures
        r == get_uint(doc@, key@),
{
    match doc.get(key) {
        Some(v) => v.as_uint(),
        None => None,
    }
}

fn parse_entry(item: &Json) -> (r: Result<FileEntry, String>)
    ensures
        (match r {
            Ok(e) => Ok(e@),
            Err(m) => Err(m@),
        }) == entry_from(item@),
{
    let path = match field_str(item, "path") {
        Some(p) => p,
        None => {
            return Err("entry missing 'path'".to_owned());
        },
    };
    let digest = match field_str(item, "digest") {
        Some(d) => d,
        None => {
            return Err("entry missing 'digest'".to_owned());
        },
    };
    let size = match field_uint(item, "size") {
        Some(n) => n,
        None => {
            return Err("entry missing 'size'".to_owned());
        },
    };
    Ok(FileEntry { path, digest, size })
}

fn parse_entries(value: &Json) -> (r: Result<Vec<FileEntry>, String>)
    ensures
        (match r {
            Ok(es) => Ok(entries_view(es@)),
            Err(m) => Err(m@),
        }) == entries_from(value@),
{
    let arr = match value.as_array() {
        Some(a) => a,
        None => {
            return Err("expected array of entries".to_owned());
        },
    };
    let ghost items = crate::json::jsons_view(arr@);
    let mut out: Vec<FileEntry> = Vec::new();
    let n = arr.len();
    let mut i: usize = 0;
    assert(items.take(0) =~= Seq::<JsonView>::empty());
    assert(entries_view(out@) =~= Seq::<EntryView>::empty());
    while i < n
        invariant
            n == arr@.len(),
            items == crate::json::jsons_view(arr@),
            entries_from(value@) == entries_from_items(items),
            i <= n,
            entries_from_items(items.take(i as int)) == Ok::<Seq<EntryView>, Seq<char>>(
                entries_view(out@),
            ),
        decreases n - i,
    {
        proof {
            assert(items.take(i + 1).drop_last() =~= items.take(i as int));
            assert(items.take(i + 1).last() == arr@[i as int]@);
        }
        let e = match parse_entry(&arr[i]) {
            Ok(e) => e,
            Err(m) => {
                proof {
                    lemma_first_error_stays(items, i as int + 1);
                }
                return Err(m);
            },
        };
        let ghost ev = e@;
        let ghost before = out@;
        out.push(e);
        proof {
            assert(entries_view(out@) =~= entries_view(before).push(ev));
        }
        i = i + 1;
    }
    proof {
        assert(items.take(n as int) =~= items);
    }
    Ok(out)
}

/// Once a prefix of the items holds a bad entry, so do all the items.
proof fn lemma_first_error_stays(items: Seq<JsonView>, k: int)
    requires
        0 <= k <= items.len(),
        entries_from_items(items.take(k)) is Err,
    ensures
        entries_from_items(items) == entries_from_items(items.take(k)),
    decreases items.len() - k,
{
    if k < items.len() {
        assert(items.take(k + 1).drop_last() =~= items.take(k));
        lemma_first_error_stays(items, k + 1);
    } else {
        assert(items.take(k) =~= items);
    }
}

/// Once a prefix of the items holds a non-string, so do all the items.
proof fn lemma_first_command_error_stays(items: Seq<JsonView>, k: int)
    requires
        0 <= k <= items.len(),
        command_from(items.take(k)) is Err,
    ensures
        command_from(items) == command_from(items.take(k)),
    decreases items.len() - k,
{
    if k < items.len() {
        assert(items.take(k + 1).drop_last() =~= items.take(k));
        lemma_first_command_error_stays(items, k + 1);
    } else {
        assert(items.take(k) =~= items);
    }
}

fn parse_command(items: &[Json]) -> (r: Result<Vec<String>, String>)
    ensures
        (match r {
            Ok(args) => Ok(strings_view(args@)),
            Err(m) => Err(m@),
        }) == command_from(crate::json::jsons_view(items@)),
{
    let ghost js = crate::json::jsons_view(items@);
    let mut out: Vec<String> = Vec::new();
    let n = items.len();
    let mut i: usize = 0;
    assert(js.take(0) =~= Seq::<JsonView>::empty());
    assert(strings_view(out@) =~= Seq::<Seq<char>>::empty());
    while i < n
        invariant
            n == items@.len(),
            js == crate::json::jsons_view(items@),
            i <= n,
            command_from(js.take(i as int)) == Ok::<Seq<Seq<char>>, Seq<char>>(strings_view(out@)),
        decreases n - i,
    {
        proof {
            assert(js.take(i + 1).drop_last() =~= js.take(i as int));
            assert(js.take(i + 1).last() == items@[i as int]@);
        }
        match items[i].as_str() {
            Some(t) => {
                let a = t.to_owned();
                let ghost av = a@;
                let ghost before = out@;
                out.push(a);
                proof {
                    assert(strings_view(out@) =~= strings_view(before).push(av));
                }
            },
            None => {
                proof {
                    lemma_first_command_error_stays(js, i as int + 1);
                }
                return Err("command arg not a string".to_owned());
            },
        }
        i = i + 1;
    }
    proof {
        assert(js.take(n as int) =~= js);
    }
    Ok(out)
}

impl Manifest {
    /// Parse a manifest from canonical (or any well-formed) JSON. (A string
    /// in memory never takes more than `usize::MAX` bytes.)
    pub fn from_json(text: &str) -> (r: Result<Manifest, String>)
        requires
            encode_utf8(text@).len() <= usize::MAX,
        ensures
            (match r {
                Ok(m) => Ok(m@),
                Err(e) => Err(e@),
            }) == manifest_result(text@),
    {
        let doc = match crate::json::parse(text) {
            Ok(d) => d,
            Err(e) => {
                return Err(e.describe());
            },
        };
        let version = match field_uint(&doc, "version") {
            Some(v) => v,
            None => {
                return Err("missing 'version'".to_owned());
            },
        };
        let producer = match field_str(&doc, "producer") {
            Some(p) => p,
            None => {
                return Err("missing 'producer'".to_owned());
            },
        };
        let key = match field_str(&doc, "key") {
            Some(k) => k,
            None => {
                return Err("missing 'key'".to_owned());
            },
        };
        let items = match doc.get("command") {
            Some(c) => match c.as_array() {
                Some(a) => a,
                None => {
                    return Err("missing 'command'".to_owned());
                },
            },
            None => {
                return Err("missing 'command'".to_owned());
            },
        };
        let command = match parse_command(items) {
            Ok(c) => c,
            Err(e) => {
                return Err(e);
            },
        };
        let inputs = match doc.get("inputs") {
            Some(v) => match parse_entries(v) {
                Ok(es) => es,
                Err(e) => {
                    return Err(e);
                },
            },
            None => {
                return Err("missing 'inputs'".to_owned());
            },
        };
        let outputs = match doc.get("outputs") {
            Some(v) => match parse_entries(v) {
                Ok(es) => es,
                Err(e) => {
                    return Err(e);
                },
            },
            None => {
                return Err("missing 'outputs'".to_owned());
            },
        };
        Ok(Manifest { version, producer, key, command, inputs, outputs })
    }
}

proof fn lemma_command_from_strs(args: Seq<Seq<char>>)
    ensures
        command_from(args.map_values(|a: Seq<char>| JsonView::Str(a))) == Ok::<
            Seq<Seq<char>>,
            Seq<char>,
        >(args),
    decreases args.len(),
{
    let items = args.map_values(|a: Seq<char>| JsonView::Str(a));
    if args.len() == 0 {
        assert(items.len() == 0);
        assert(args =~= Seq::<Seq<char>>::empty());
    } else {
        lemma_command_from_strs(args.drop_last());
        assert(items.len() == args.len());
        assert(items.last() == JsonView::Str(args.last()));
        assert(items.drop_last() =~= args.drop_last().map_values(|a: Seq<char>| JsonView::Str(a)));
        assert(args.drop_last().push(args.last()) =~= args);
        assert(command_from(items) == Ok::<Seq<Seq<char>>, Seq<char>>(
            args.drop_last().push(args.last()),
        ));
    }
}

proof fn lemma_entry_from_json(e: EntryView)
    ensures
        entry_from(entry_json(e)) == Ok::<EntryView, Seq<char>>(e),
{
    reveal_strlit("path");
    reveal_strlit("digest");
    reveal_strlit("size");
    let ms = seq![
        ("path"@, JsonView::Str(e.path)),
        ("digest"@, JsonView::Str(e.digest)),
        ("size"@, JsonView::Uint(e.size)),
    ];
    assert(ms.drop_first()[0].0 == "digest"@);
    assert(ms.drop_first().drop_first()[0].0 == "size"@);
    assert("path"@[0] != "size"@[0]);
    assert("path"@ != "digest"@);
    assert("path"@ != "size"@);
    assert("digest"@ != "size"@);
    assert(crate::json::member_value(ms, "path"@) == Some(JsonView::Str(e.path)));
    assert(crate::json::member_value(ms.drop_first(), "digest"@) == Some(JsonView::Str(e.digest)));
    assert(crate::json::member_value(ms, "digest"@) == Some(JsonView::Str(e.digest)));
    assert(crate::json::member_value(ms.drop_first().drop_first(), "size"@) == Some(
        JsonView::Uint(e.size),
    ));
    assert(crate::json::member_value(ms.drop_first(), "size"@) == Some(JsonView::Uint(e.size)));
    assert(crate::json::member_value(ms, "size"@) == Some(JsonView::Uint(e.size)));
}

proof fn lemma_entries_from_json(es: Seq<EntryView>)
    ensures
        entries_from(entries_json(es)) == Ok::<Seq<EntryView>, Seq<char>>(es),
    decreases es.len(),
{
    let items = es.map_values(|e: EntryView| entry_json(e));
    if es.len() == 0 {
        assert(items.len() == 0);
        assert(es =~= Seq::<EntryView>::empty());
    } else {
        lemma_entries_from_json(es.drop_last());
        assert(items.len() == es.len());
        assert(items.last() == entry_json(es.last()));
        assert(items.drop_last() =~= es.drop_last().map_values(|e: EntryView| entry_json(e)));
        lemma_entry_from_json(es.last());
        assert(es.drop_last().push(es.last()) =~= es);
        assert(entries_from_items(items) == Ok::<Seq<EntryView>, Seq<char>>(
            es.drop_last().push(es.last()),
        ));
    }
}

/// Each input contributes its path, its digest and its size to the key
/// stream, each followed by NUL; the size is written as ASCII decimal
/// digits, most significant first and without leading zeros, that read
/// back as the size (`12` as `"12"`).
pub proof fn lemma_entry_stream_fields(e: EntryView)
    ensures
        exists|d: Seq<u8>|
            #![trigger ascii_digits_value(d)]
            {
                &&& entry_stream(e) == encode_utf8(e.path) + seq![0u8] + encode_utf8(e.digest) + seq![
                    0u8,
                ] + d + seq![0u8]
                &&& d.len() >= 1
                &&& forall|i: int| 0 <= i < d.len() ==> 48 <= #[trigger] d[i] <= 57
                &&& ascii_digits_value(d) == e.size
                &&& (d[0] == 48 ==> e.size == 0)
            },
{
    let d = decimal_bytes(e.size as nat);
    lemma_decimal_bytes_reads_back(e.size as nat);
    assert(ascii_digits_value(d) == e.size);
}

/// What is written is read back: reading the canonical JSON of any manifest
/// gives that manifest.
pub proof fn lemma_manifest_json_roundtrip(m: ManifestView)
    ensures
        manifest_result(encode_value(manifest_json(m))) == Ok::<ManifestView, Seq<char>>(m),
{
    let doc = manifest_json(m);
    crate::json::lemma_encode_parse_roundtrip(doc);
    reveal_strlit("version");
    reveal_strlit("producer");
    reveal_strlit("key");
    reveal_strlit("command");
    reveal_strlit("inputs");
    reveal_strlit("outputs");
    let ms = match doc {
        JsonView::Object(ms) => ms,
        _ => Seq::empty(),
    };
    let m1 = ms.drop_first();
    let m2 = m1.drop_first();
    let m3 = m2.drop_first();
    let m4 = m3.drop_first();
    let m5 = m4.drop_first();
    assert("version"@[0] != "command"@[0]);
    assert("version"@[0] != "outputs"@[0]);
    assert("command"@[0] != "outputs"@[0]);
    assert("version"@ != "command"@);
    assert("version"@ != "outputs"@);
    assert("command"@ != "outputs"@);
    assert(m1[0].0 == "producer"@);
    assert(m2[0].0 == "key"@);
    assert(m3[0].0 == "command"@);
    assert(m4[0].0 == "inputs"@);
    assert(m5[0].0 == "outputs"@);
    assert(crate::json::member_value(ms, "version"@) == Some(JsonView::Uint(m.version)));
    assert(crate::json::member_value(m1, "producer"@) == Some(JsonView::Str(m.producer)));
    assert(crate::json::member_value(ms, "producer"@) == Some(JsonView::Str(m.producer)));
    assert(crate::json::member_value(m2, "key"@) == Some(JsonView::Str(m.key)));
    assert(crate::json::member_value(m1, "key"@) == Some(JsonView::Str(m.key)));
    assert(crate::json::member_value(ms, "key"@) == Some(JsonView::Str(m.key)));
    assert(crate::json::member_value(m3, "command"@) == Some(command_json(m.command)));
    assert(crate::json::member_value(m2, "command"@) == Some(command_json(m.command)));
    assert(crate::json::member_value(m1, "command"@) == Some(command_json(m.command)));
    assert(crate::json::member_value(ms, "command"@) == Some(command_json(m.command)));
    assert(crate::json::member_value(m4, "inputs"@) == Some(entries_json(m.inputs)));
    assert(crate::json::member_value(m3, "inputs"@) == Some(entries_json(m.inputs)));
    assert(crate::json::member_value(m2, "inputs"@) == Some(entries_json(m.inputs)));
    assert(crate::json::member_value(m1, "inputs"@) == Some(entries_json(m.inputs)));
    assert(crate::json::member_value(ms, "inputs"@) == Some(entries_json(m.inputs)));
    assert(crate::json::member_value(m5, "outputs"@) == Some(entries_json(m.outputs)));
    assert(crate::json::member_value(m4, "outputs"@) == Some(entries_json(m.outputs)));
    assert(crate::json::member_value(m3, "outputs"@) == Some(entries_json(m.outputs)));
    assert(crate::json::member_value(m2, "outputs"@) == Some(entries_json(m.outputs)));
    assert(crate::json::member_value(m1, "outputs"@) == Some(entries_json(m.outputs)));
    assert(crate::json::member_value(ms, "outputs"@) == Some(entries_json(m.outputs)));
    lemma_command_from_strs(m.command);
    lemma_entries_from_json(m.inputs);
    lemma_entries_from_json(m.outputs);
    assert(manifest_from_doc(doc) =~= Ok::<ManifestView, Seq<char>>(m));
}

/// A string without NUL characters.
pub open spec fn nul_free(a: Seq<char>) -> bool {
    forall|i: int| 0 <= i < a.len() ==> #[trigger] a[i] != '\0'
}

/// The UTF-8 encoding of a NUL-free string holds no zero byte.
proof fn lemma_encode_nul_free(a: Seq<char>)
    requires
        nul_free(a),
    ensures
        forall|i: int| 0 <= i < encode_utf8(a).len() ==> #[trigger] encode_utf8(a)[i] != 0,
    decreases a.len(),
{
    if a.len() > 0 {
        let r = a.drop_first();
        assert forall|i: int| 0 <= i < r.len() implies #[trigger] r[i] != '\0' by {
            assert(r[i] == a[i + 1]);
        }
        lemma_encode_nul_free(r);
        let c = a[0] as u32;
        vstd::utf8::char_is_scalar(a[0]);
        assert(a[0] != '\0');
        if c == 0 {
            vstd::utf8::char_u32_cast(a[0], c);
            assert((0u32 as char) == '\0');
        }
        assert(c != 0);
        let e = vstd::utf8::encode_scalar(c);
        assert forall|i: int| 0 <= i < e.len() implies #[trigger] e[i] != 0 by {
            assert((c & 0x7F) as u8 != 0 || !(c <= 0x7F) || c == 0) by (bit_vector);
            assert(0xC0u8 | ((c >> 6) & 0x1F) as u8 != 0) by (bit_vector);
            assert(0xE0u8 | ((c >> 12) & 0x0F) as u8 != 0) by (bit_vector);
            assert(0xF0u8 | ((c >> 18) & 0x7) as u8 != 0) by (bit_vector);
            assert(0x80u8 | (c & 0x3F) as u8 != 0) by (bit_vector);
            assert(0x80u8 | ((c >> 6) & 0x3F) as u8 != 0) by (bit_vector);
            assert(0x80u8 | ((c >> 12) & 0x3F) as u8 != 0) by (bit_vector);
        }
        let whole = encode_utf8(a);
        assert(whole == e + encode_utf8(r));
        assert forall|i: int| 0 <= i < whole.len() implies #[trigger] whole[i] != 0 by {
            if i < e.len() {
                assert(whole[i] == e[i]);
            } else {
                assert(whole[i] == encode_utf8(r)[i - e.len()]);
            }
        }
    }
}

/// The argument stream of a non-empty command ends with a NUL.
proof fn lemma_args_stream_last(args: Seq<Seq<char>>)
    requires
        args.len() > 0,
    ensures
        args_stream(args).len() > 0,
        args_stream(args).last() == 0,
{
}

/// With NUL-free arguments, the argument stream determines the command.
#[verifier::spinoff_prover]
proof fn lemma_args_stream_injective(c1: Seq<Seq<char>>, c2: Seq<Seq<char>>)
    requires
        forall|i: int| 0 <= i < c1.len() ==> nul_free(#[trigger] c1[i]),
        forall|i: int| 0 <= i < c2.len() ==> nul_free(#[trigger] c2[i]),
        args_stream(c1) == args_stream(c2),
    ensures
        c1 == c2,
    decreases c1.len(),
{
    let st = args_stream(c1);
    if c1.len() == 0 {
        if c2.len() > 0 {
            lemma_args_stream_last(c2);
        }
        assert(c2.len() == 0);
        assert(c1 =~= c2);
    } else {
        if c2.len() == 0 {
            lemma_args_stream_last(c1);
        }
        assert(c2.len() > 0);
        let a1 = args_stream(c1.drop_last());
        let a2 = args_stream(c2.drop_last());
        let l1 = encode_utf8(c1.last());
        let l2 = encode_utf8(c2.last());
        lemma_encode_nul_free(c1.last());
        lemma_encode_nul_free(c2.last());
        assert(st == a1 + l1 + seq![0u8]);
        assert(st == a2 + l2 + seq![0u8]);
        if l1.len() < l2.len() {
            let k = st.len() - 2 - l1.len();
            if a1.len() == 0 {
                assert(st.len() == l1.len() + 1);
            } else {
                lemma_args_stream_last(c1.drop_last());
                assert(st[k] == a1.last());
                assert(st[k] == l2[k - a2.len()]);
            }
        }
        if l2.len() < l1.len() {
            let k = st.len() - 2 - l2.len();
            if a2.len() == 0 {
                assert(st.len() == l2.len() + 1);
            } else {
                lemma_args_stream_last(c2.drop_last());
                assert(st[k] == a2.last());
                assert(st[k] == l1[k - a1.len()]);
            }
        }
        assert(l1.len() == l2.len());
        assert(a1.len() == a2.len());
        assert forall|i: int| 0 <= i < a1.len() implies a1[i] == a2[i] by {
            assert(st[i] == a1[i]);
            assert(st[i] == a2[i]);
        }
        assert(a1 =~= a2);
        assert(l1 =~= st.subrange(a1.len() as int, st.len() - 1));
        assert(l2 =~= st.subrange(a2.len() as int, st.len() - 1));
        vstd::utf8::encode_utf8_decode_utf8(c1.last());
        vstd::utf8::encode_utf8_decode_utf8(c2.last());
        assert forall|i: int| 0 <= i < c1.drop_last().len() implies nul_free(#[trigger] c1.drop_last()[i]) by {
            assert(c1.drop_last()[i] == c1[i]);
        }
        assert forall|i: int| 0 <= i < c2.drop_last().len() implies nul_free(#[trigger] c2.drop_last()[i]) by {
            assert(c2.drop_last()[i] == c2[i]);
        }
        lemma_args_stream_injective(c1.drop_last(), c2.drop_last());
        assert(c1 =~= c2.drop_last().push(c2.last()));
        assert(c2 =~= c2.drop_last().push(c2.last()));
    }
}

/// Every command argument is folded into the key: for the same inputs, two
/// commands whose arguments hold no NUL character give the same key stream
/// only if they are the same command. (Distinct streams give distinct keys
/// unless FNV-1a collides, which nothing rules out.)
pub proof fn lemma_key_stream_command_injective(
    inputs: Seq<EntryView>,
    c1: Seq<Seq<char>>,
    c2: Seq<Seq<char>>,
)
    requires
        forall|i: int| 0 <= i < c1.len() ==> nul_free(#[trigger] c1[i]),
        forall|i: int| 0 <= i < c2.len() ==> nul_free(#[trigger] c2[i]),
        key_stream(inputs, c1) == key_stream(inputs, c2),
    ensures
        c1 == c2,
{
    let pre = key_preamble() + decimal_bytes(FORMAT_VERSION as nat) + seq![0u8] + entries_stream(
        inputs,
    ) + command_marker();
    assert(key_stream(inputs, c1) == pre + args_stream(c1));
    assert(key_stream(inputs, c2) == pre + args_stream(c2));
    assert(args_stream(c1) =~= key_stream(inputs, c1).skip(pre.len() as int));
    assert(args_stream(c2) =~= key_stream(inputs, c2).skip(pre.len() as int));
    lemma_args_stream_injective(c1, c2);
}

} // verus!
