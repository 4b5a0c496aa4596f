//! The content-addressed store: its layout and the decisions it takes.
//!
//! Layout under the cache root (default `.cairn-cache`):
//!
//! ```text
//! <root>/
//!   objects/<aa>/<digest>       content-addressed blobs (aa = first 2 hex chars)
//!   manifests/<key>.json        manifests keyed by cache key
//! ```
//!
//! Blobs are deduplicated: identical content has one digest, hence one path,
//! however many manifests reference it. The reading and writing of files is
//! left to the caller; this module computes every path, entry, plan and
//! report from the bytes it is handed.

use vstd::prelude::*;
use vstd::utf8::*;
use vstd::string::StringSliceAdditionalSpecFns;
use crate::hash::{canonical_digest, digest_of, is_canonical_digest, lemma_canonical_digest_shape};
use crate::manifest::{
    entries_view, spec_key, strings_view, EntryView, FileEntry, InputEntry, Manifest,
    OutputEntry,
};
use crate::text::{
    chars_of, lemma_str_le_antisymmetric, lemma_str_le_total, lemma_str_le_transitive, str_le,
    string_le,
};

verus! {

/// A path with every backslash turned into a forward slash.
pub open spec fn normalized(p: Seq<char>) -> Seq<char> {
    p.map_values(|c: char| if c == '\\' { '/' } else { c })
}

/// Normalize a path string to forward slashes for cross-platform manifests.
pub fn normalize_path(p: &str) -> (out: String)
    ensures
        out@ == normalized(p@),
{
    let cs = chars_of(p);
    let mut out = String::new();
    let n = cs.len();
    let mut i: usize = 0;
    while i < n
        invariant
            n == cs@.len(),
            cs@ == p@,
            i <= n,
            out@ == normalized(p@).take(i as int),
        decreases n - i,
    {
        let c = cs[i];
        if c == '\\' {
            out.push('/');
        } else {
            out.push(c);
        }
        proof {
            assert(out@ =~= normalized(p@).take(i + 1));
        }
        i = i + 1;
    }
    proof {
        assert(normalized(p@).take(n as int) =~= normalized(p@));
    }
    out
}

/// Joins a path component onto a base path, as `Path::join` does on Unix:
/// an absolute component replaces the base; otherwise a `/` separates the
/// two unless the base is empty or already ends with one.
pub open spec fn joined(base: Seq<char>, comp: Seq<char>) -> Seq<char> {
    if comp.len() > 0 && comp[0] == '/' {
        comp
    } else if base.len() == 0 || base.last() == '/' {
        base + comp
    } else {
        base + seq!['/'] + comp
    }
}

/// `Path::join` on Unix, on strings.
pub fn path_join(base: &str, comp: &str) -> (out: String)
    ensures
        out@ == joined(base@, comp@),
{
    let b = chars_of(base);
    let c = chars_of(comp);
    let mut out = String::new();
    if c.len() > 0 && c[0] == '/' {
        out.append(comp);
        return out;
    }
    out.append(base);
    if b.len() > 0 && b[b.len() - 1] != '/' {
        out.push('/');
    }
    out.append(comp);
    out
}

/// Where the first shard of a digest ends: at byte 2, or at its end if shorter.
pub open spec fn shard_end(d: Seq<char>) -> int {
    if encode_utf8(d).len() < 2 {
        encode_utf8(d).len() as int
    } else {
        2
    }
}

/// The shard directory of a digest: its first two bytes (the whole digest if
/// it is shorter). Defined where those bytes end on a character boundary.
pub open spec fn shard_of(d: Seq<char>) -> Seq<char> {
    decode_utf8(encode_utf8(d).take(shard_end(d)))
}

/// The contents of a store rooted at a directory.
pub struct Store {
    root: String,
}

impl View for Store {
    type V = Seq<char>;

    /// The root directory of the store.
    closed spec fn view(&self) -> Seq<char> {
        self.root@
    }
}

/// The relative directory that holds the blobs.
pub open spec fn objects_name() -> Seq<char> {
    seq!['o', 'b', 'j', 'e', 'c', 't', 's']
}

/// The relative directory that holds the manifests.
pub open spec fn manifests_name() -> Seq<char> {
    seq!['m', 'a', 'n', 'i', 'f', 'e', 's', 't', 's']
}

/// The file name extension of a manifest, with its dot.
pub open spec fn json_suffix() -> Seq<char> {
    seq!['.', 'j', 's', 'o', 'n']
}

/// The path of the blob with digest `d` in the store rooted at `root`.
pub open spec fn object_path_of(root: Seq<char>, d: Seq<char>) -> Seq<char> {
    joined(joined(joined(root, objects_name()), shard_of(d)), d)
}

/// The path of the manifest with key `k` in the store rooted at `root`.
pub open spec fn manifest_path_of(root: Seq<char>, k: Seq<char>) -> Seq<char> {
    joined(joined(root, manifests_name()), k + json_suffix())
}

impl Store {
    /// The store rooted at `root`. Creating its directories is the caller's part.
    pub fn open(root: String) -> (s: Store)
        ensures
            s@ == root@,
    {
        Store { root }
    }

    /// The directory that holds the blobs.
    pub fn objects_dir(&self) -> (p: String)
        ensures
            p@ == joined(self@, objects_name()),
    {
        let name = "objects";
        proof {
            reveal_strlit("objects");
        }
        path_join(self.root.as_str(), name)
    }

    /// The directory that holds the manifests.
    pub fn manifests_dir(&self) -> (p: String)
        ensures
            p@ == joined(self@, manifests_name()),
    {
        let name = "manifests";
        proof {
            reveal_strlit("manifests");
        }
        path_join(self.root.as_str(), name)
    }

    /// The path where a blob with the given digest lives.
    pub fn object_path(&self, digest: &str) -> (p: String)
        requires
            is_char_boundary(encode_utf8(digest@), shard_end(digest@)),
        ensures
            p@ == object_path_of(self@, digest@),
    {
        let cs = chars_of(digest);
        proof {
            let d = digest@;
            if d.len() > 0 {
                assert(encode_utf8(d) == encode_scalar(d[0] as u32) + encode_utf8(d.drop_first()));
                if d.len() > 1 {
                    let r = d.drop_first();
                    assert(encode_utf8(r) == encode_scalar(r[0] as u32) + encode_utf8(r.drop_first()));
                } else {
                    assert(d.drop_first() =~= Seq::<char>::empty());
                }
            }
        }
        let k: usize = if cs.len() == 0 {
            0
        } else if (cs[0] as u32) > 0x7f || cs.len() > 1 {
            2
        } else {
            1
        };
        assert(digest.spec_bytes() == encode_utf8(digest@));
        assert(k == shard_end(digest@));
        let (shard, _) = digest.split_at(k);
        proof {
            assert(encode_utf8(shard@) == encode_utf8(digest@).take(k as int));
            encode_utf8_decode_utf8(shard@);
            assert(shard@ == shard_of(digest@));
        }
        let objects = self.objects_dir();
        let dir = path_join(objects.as_str(), shard);
        path_join(dir.as_str(), digest)
    }

    /// The path where a manifest with the given key lives.
    pub fn manifest_path(&self, key: &str) -> (p: String)
        ensures
            p@ == manifest_path_of(self@, key@),
    {
        let suffix = ".json";
        proof {
            reveal_strlit(".json");
        }
        let mut file = key.to_owned();
        file.append(suffix);
        let dir = self.manifests_dir();
        path_join(dir.as_str(), file.as_str())
    }
}


/// Inserts `x` into `s` after every entry whose path sorts before or equal
/// to its own, scanning from the end: one step of a stable insertion sort.
pub open spec fn insert_by_path(s: Seq<EntryView>, x: EntryView) -> Seq<EntryView>
    decreases s.len(),
{
    if s.len() == 0 {
        seq![x]
    } else if str_le(s.last().path, x.path) {
        s.push(x)
    } else {
        insert_by_path(s.drop_last(), x).push(s.last())
    }
}

/// The entries of `s` stably sorted by path, in the byte-wise order of
/// strings (what `sort_by(|a, b| a.path.cmp(&b.path))` gives).
pub open spec fn sort_by_path(s: Seq<EntryView>) -> Seq<EntryView>
    decreases s.len(),
{
    if s.len() == 0 {
        Seq::empty()
    } else {
        insert_by_path(sort_by_path(s.drop_last()), s.last())
    }
}

/// The entry recorded for a file given on the command line as `path` whose
/// content is `content`.
pub open spec fn entry_for(path: Seq<char>, content: Seq<u8>) -> EntryView {
    EntryView {
        path: normalized(path),
        digest: canonical_digest(content),
        size: content.len() as u64,
    }
}

/// The byte contents of a sequence of buffers.
pub open spec fn contents_view(cs: Seq<Vec<u8>>) -> Seq<Seq<u8>> {
    cs.map_values(|c: Vec<u8>| c@)
}

/// The entries recorded for files `paths` with contents `contents`, in order.
pub open spec fn entries_for(paths: Seq<Seq<char>>, contents: Seq<Seq<u8>>) -> Seq<EntryView> {
    Seq::new(paths.len(), |i: int| entry_for(paths[i], contents[i]))
}

/// Where `insert_by_path` puts its element: after position `j`, when every
/// entry from `j` on sorts after it and the one before `j` does not.
proof fn lemma_insert_at(s: Seq<EntryView>, x: EntryView, j: int)
    requires
        0 <= j <= s.len(),
        forall|k: int| j <= k < s.len() ==> !str_le(#[trigger] s[k].path, x.path),
        j > 0 ==> str_le(s[j - 1].path, x.path),
    ensures
        insert_by_path(s, x) == s.take(j).push(x) + s.skip(j),
    decreases s.len(),
{
    if s.len() == 0 {
        assert(s.take(j).push(x) + s.skip(j) =~= seq![x]);
    } else if j == s.len() {
        assert(s.take(j).push(x) + s.skip(j) =~= s.push(x));
    } else {
        let t = s.drop_last();
        assert forall|k: int| j <= k < t.len() implies !str_le(#[trigger] t[k].path, x.path) by {
            assert(t[k] == s[k]);
        }
        lemma_insert_at(t, x, j);
        assert(s.take(j).push(x) + s.skip(j) =~= (t.take(j).push(x) + t.skip(j)).push(s.last()));
    }
}

/// Inserts `x` into `v` as `insert_by_path` does.
fn insert_entry(v: &mut Vec<FileEntry>, x: FileEntry)
    ensures
        entries_view(final(v)@) == insert_by_path(entries_view(old(v)@), x@),
{
    let ghost s = entries_view(v@);
    let mut j = v.len();
    while j > 0 && !string_le(&v[j - 1].path, &x.path)
        invariant
            j <= v@.len(),
            s == entries_view(v@),
            forall|k: int| j <= k < s.len() ==> !str_le(#[trigger] s[k].path, x@.path),
        decreases j,
    {
        j = j - 1;
    }
    proof {
        lemma_insert_at(s, x@, j as int);
    }
    let ghost xv = x@;
    v.insert(j, x);
    proof {
        assert(entries_view(v@) =~= s.take(j as int).push(xv) + s.skip(j as int));
    }
}

/// Builds the entries of files `paths` with contents `contents`, sorted by path.
fn entries_sorted(paths: &[String], contents: &[Vec<u8>]) -> (out: Vec<FileEntry>)
    requires
        paths@.len() == contents@.len(),
    ensures
        entries_view(out@) == sort_by_path(
            entries_for(strings_view(paths@), contents_view(contents@)),
        ),
{
    let ghost all = entries_for(strings_view(paths@), contents_view(contents@));
    let mut out: Vec<FileEntry> = Vec::new();
    let n = paths.len();
    let mut i: usize = 0;
    assert(all.take(0) =~= Seq::<EntryView>::empty());
    while i < n
        invariant
            n == paths@.len(),
            n == contents@.len(),
            all == entries_for(strings_view(paths@), contents_view(contents@)),
            i <= n,
            entries_view(out@) == sort_by_path(all.take(i as int)),
        decreases n - i,
    {
        let c = &contents[i];
        let e = FileEntry {
            path: normalize_path(paths[i].as_str()),
            digest: digest_of(c.as_slice()),
            size: c.len() as u64,
        };
        proof {
            assert(e@ == all[i as int]);
            assert(all.take(i + 1).drop_last() =~= all.take(i as int));
        }
        insert_entry(&mut out, e);
        i = i + 1;
    }
    proof {
        assert(all.take(n as int) =~= all);
    }
    out
}

impl Store {
    /// Hash a set of input files into sorted input entries: each path is
    /// normalized to forward slashes, each content hashed and measured, and
    /// the entries are stably sorted by path. `contents[i]` is the content
    /// of the file named `paths[i]`.
    pub fn hash_inputs(paths: &[String], contents: &[Vec<u8>]) -> (out: Vec<InputEntry>)
        requires
            paths@.len() == contents@.len(),
        ensures
            entries_view(out@) == sort_by_path(
                entries_for(strings_view(paths@), contents_view(contents@)),
            ),
    {
        entries_sorted(paths, contents)
    }

    /// The output entries of captured files, sorted as [`Store::hash_inputs`]
    /// sorts inputs. Each content is stored as the blob at
    /// [`Store::object_path`] of its entry's digest.
    pub fn store_outputs(&self, paths: &[String], contents: &[Vec<u8>]) -> (out: Vec<OutputEntry>)
        requires
            paths@.len() == contents@.len(),
        ensures
            entries_view(out@) == sort_by_path(
                entries_for(strings_view(paths@), contents_view(contents@)),
            ),
    {
        entries_sorted(paths, contents)
    }
}

/// Result of verifying a manifest against the store.
#[derive(Debug, Default)]
pub struct VerifyReport {
    /// Number of outputs present and matching their digest.
    pub ok: usize,
    /// Digests of outputs whose blob is missing.
    pub missing: Vec<String>,
    /// Digests of outputs whose blob content no longer matches.
    pub corrupt: Vec<String>,
    /// Whether the recomputed key matches the stored key.
    pub key_matches: bool,
}

/// The mathematical value of a [`VerifyReport`].
#[verifier::ext_equal]
pub struct ReportView {
    pub ok: nat,
    pub missing: Seq<Seq<char>>,
    pub corrupt: Seq<Seq<char>>,
    pub key_matches: bool,
}

impl View for VerifyReport {
    type V = ReportView;

    open spec fn view(&self) -> ReportView {
        ReportView {
            ok: self.ok as nat,
            missing: strings_view(self.missing@),
            corrupt: strings_view(self.corrupt@),
            key_matches: self.key_matches,
        }
    }
}

/// The contents read back for each output: `None` where no blob could be read.
pub open spec fn blobs_view(bs: Seq<Option<Vec<u8>>>) -> Seq<Option<Seq<u8>>> {
    bs.map_values(|b: Option<Vec<u8>>| match b {
        Some(v) => Some(v@),
        None => None,
    })
}

/// A blob read back for output `o` is present and re-hashes to its digest.
pub open spec fn blob_intact(o: EntryView, b: Option<Seq<u8>>) -> bool {
    match b {
        Some(c) => canonical_digest(c) == o.digest,
        None => false,
    }
}

/// The blob-related part of the report on the first `n` outputs: how many
/// are intact, the digests of the missing ones and of the corrupt ones, in
/// the order of the outputs.
pub open spec fn blob_report(outs: Seq<EntryView>, blobs: Seq<Option<Seq<u8>>>, n: nat) -> (
    nat,
    Seq<Seq<char>>,
    Seq<Seq<char>>,
)
    decreases n,
{
    if n == 0 {
        (0, Seq::empty(), Seq::empty())
    } else {
        let (ok, missing, corrupt) = blob_report(outs, blobs, (n - 1) as nat);
        let o = outs[n - 1];
        match blobs[n - 1] {
            None => (ok, missing.push(o.digest), corrupt),
            Some(c) => if canonical_digest(c) == o.digest {
                (ok + 1, missing, corrupt)
            } else {
                (ok, missing, corrupt.push(o.digest))
            },
        }
    }
}

/// The report on manifest `m` when `blobs[i]` is what was read for its
/// output `i`.
pub open spec fn report_of(m: crate::manifest::ManifestView, blobs: Seq<Option<Seq<u8>>>) -> ReportView {
    let (ok, missing, corrupt) = blob_report(m.outputs, blobs, m.outputs.len());
    ReportView { ok, missing, corrupt, key_matches: m.key == spec_key(m.inputs, m.command) }
}

/// Whether a report finds the store healthy.
pub open spec fn report_healthy(r: ReportView) -> bool {
    r.missing.len() == 0 && r.corrupt.len() == 0 && r.key_matches
}

impl VerifyReport {
    /// True when nothing is missing or corrupt and the key checks out.
    pub fn is_healthy(&self) -> (b: bool)
        ensures
            b == report_healthy(self@),
    {
        self.missing.len() == 0 && self.corrupt.len() == 0 && self.key_matches
    }
}

impl Store {
    /// Verify store integrity for a manifest: every referenced blob must
    /// exist and re-hash to its recorded digest, and the key recomputed from
    /// the inputs and the command must equal the stored key. `blobs[i]` is
    /// what reading the blob of output `i` gave (`None` when it could not be
    /// read).
    pub fn verify_manifest(&self, manifest: &Manifest, blobs: &[Option<Vec<u8>>]) -> (r: VerifyReport)
        requires
            blobs@.len() == manifest.outputs@.len(),
        ensures
            r@ == report_of(manifest@, blobs_view(blobs@)),
    {
        let ghost outs = entries_view(manifest.outputs@);
        let ghost bv = blobs_view(blobs@);
        let mut ok: usize = 0;
        let mut missing: Vec<String> = Vec::new();
        let mut corrupt: Vec<String> = Vec::new();
        let n = manifest.outputs.len();
        let mut i: usize = 0;
        while i < n
            invariant
                n == manifest.outputs@.len(),
                n == blobs@.len(),
                outs == entries_view(manifest.outputs@),
                bv == blobs_view(blobs@),
                i <= n,
                ok <= i,
                (ok as nat, strings_view(missing@), strings_view(corrupt@)) == blob_report(
                    outs,
                    bv,
                    i as nat,
                ),
            decreases n - i,
        {
            let out = &manifest.outputs[i];
            match &blobs[i] {
                Some(content) => {
                    let d = digest_of(content.as_slice());
                    if d == out.digest {
                        ok = ok + 1;
                    } else {
                        corrupt.push(out.digest.clone());
                        proof {
                            assert(strings_view(corrupt@) =~= blob_report(outs, bv, i as nat).2.push(out.digest@));
                        }
                    }
                },
                None => {
                    missing.push(out.digest.clone());
                    proof {
                        assert(strings_view(missing@) =~= blob_report(outs, bv, i as nat).1.push(out.digest@));
                    }
                },
            }
            i = i + 1;
        }
        let recomputed = Manifest::compute_key(manifest.inputs.as_slice(), manifest.command.as_slice());
        let key_matches = recomputed == manifest.key;
        VerifyReport { ok, missing, corrupt, key_matches }
    }
}

/// The first output whose blob is absent refuses a restore.
#[derive(Debug)]
pub struct MissingBlob {
    /// The digest of the absent blob.
    pub digest: String,
    /// The output path that references it.
    pub path: String,
}

impl MissingBlob {
    /// The error text: `missing blob <digest> for output <path>`.
    pub fn message(&self) -> (s: String)
        ensures
            s@ == "missing blob "@ + self.digest@ + " for output "@ + self.path@,
    {
        let mut s = String::new();
        s.append("missing blob ");
        s.append(self.digest.as_str());
        s.append(" for output ");
        s.append(self.path.as_str());
        s
    }
}

/// What a restore of `outs` into `base` does, given which blobs are present:
/// if some blob is absent, it refuses with the first such output (digest and
/// path) before writing anything; otherwise it writes every output, in
/// order, to `base` joined with its path.
pub open spec fn restore_plan(base: Seq<char>, outs: Seq<EntryView>, present: Seq<bool>) -> Result<
    Seq<Seq<char>>,
    (Seq<char>, Seq<char>),
> {
    if exists|i: int| 0 <= i < outs.len() && !present[i] {
        let i = choose|i: int|
            0 <= i < outs.len() && !present[i] && forall|j: int| 0 <= j < i ==> present[j];
        Err((outs[i].digest, outs[i].path))
    } else {
        Ok(Seq::new(outs.len(), |i: int| joined(base, outs[i].path)))
    }
}

impl Store {
    /// Plan the restore of all outputs of a manifest into `base`, where
    /// `present[i]` tells whether the blob of output `i` exists. Fails, before
    /// anything is written, if any referenced blob is missing; otherwise
    /// returns the destination of each output, in order (the number of files
    /// written is its length).
    pub fn restore_outputs(&self, base: &str, manifest: &Manifest, present: &[bool]) -> (r: Result<
        Vec<String>,
        MissingBlob,
    >)
        requires
            present@.len() == manifest.outputs@.len(),
        ensures
            match r {
                Ok(dests) => restore_plan(base@, entries_view(manifest.outputs@), present@) == Ok::<
                    Seq<Seq<char>>,
                    (Seq<char>, Seq<char>),
                >(strings_view(dests@)),
                Err(e) => restore_plan(base@, entries_view(manifest.outputs@), present@) == Err::<
                    Seq<Seq<char>>,
                    (Seq<char>, Seq<char>),
                >((e.digest@, e.path@)),
            },
    {
        let ghost outs = entries_view(manifest.outputs@);
        let n = manifest.outputs.len();
        let mut i: usize = 0;
        while i < n
            invariant
                n == manifest.outputs@.len(),
                n == present@.len(),
                outs == entries_view(manifest.outputs@),
                i <= n,
                forall|j: int| 0 <= j < i ==> present@[j],
            decreases n - i,
        {
            if !present[i] {
                let out = &manifest.outputs[i];
                proof {
                    let w = choose|k: int|
                        0 <= k < outs.len() && !present@[k] && forall|j: int|
                            0 <= j < k ==> present@[j];
                    assert(0 <= i < outs.len() && !present@[i as int] && forall|j: int|
                        0 <= j < i ==> present@[j]);
                    assert(w == i) by {
                        if w < i {
                            assert(present@[w]);
                        } else if w > i {
                            assert(present@[i as int]);
                        }
                    }
                }
                return Err(MissingBlob { digest: out.digest.clone(), path: out.path.clone() });
            }
            i = i + 1;
        }
        let mut dests: Vec<String> = Vec::new();
        let mut k: usize = 0;
        while k < n
            invariant
                n == manifest.outputs@.len(),
                outs == entries_view(manifest.outputs@),
                k <= n,
                strings_view(dests@) == Seq::new(k as nat, |j: int| joined(base@, outs[j].path)),
            decreases n - k,
        {
            let d = path_join(base, manifest.outputs[k].path.as_str());
            let ghost prev = dests@;
            let ghost dv = d@;
            dests.push(d);
            proof {
                assert(dests@ == prev.push(d));
                assert(strings_view(dests@) =~= strings_view(prev).push(dv));
                assert(outs[k as int].path == manifest.outputs@[k as int].path@);
                assert(strings_view(dests@) =~= Seq::new((k + 1) as nat, |j: int| joined(base@, outs[j].path)));
            }
            k = k + 1;
        }
        proof {
            assert(!(exists|j: int| 0 <= j < outs.len() && !present@[j]));
        }
        Ok(dests)
    }
}

/// The positions `0..n`.
pub open spec fn positions(n: nat) -> Seq<int> {
    Seq::new(n, |i: int| i)
}

/// The outputs whose blob is present and re-hashes to its digest.
pub open spec fn intact_at(outs: Seq<EntryView>, blobs: Seq<Option<Seq<u8>>>) -> spec_fn(int) -> bool {
    |i: int| blob_intact(outs[i], blobs[i])
}

/// The outputs whose blob could not be read.
pub open spec fn absent_at(blobs: Seq<Option<Seq<u8>>>) -> spec_fn(int) -> bool {
    |i: int| blobs[i] is None
}

/// The outputs whose blob was read but no longer matches its digest.
pub open spec fn altered_at(outs: Seq<EntryView>, blobs: Seq<Option<Seq<u8>>>) -> spec_fn(int) -> bool {
    |i: int| blobs[i] is Some && !blob_intact(outs[i], blobs[i])
}

/// The digests of the outputs at positions `ps`, in order.
pub open spec fn digests_at(outs: Seq<EntryView>, ps: Seq<int>) -> Seq<Seq<char>> {
    ps.map_values(|i: int| outs[i].digest)
}

proof fn lemma_blob_report_counts(outs: Seq<EntryView>, blobs: Seq<Option<Seq<u8>>>, n: nat)
    requires
        n <= outs.len(),
        n <= blobs.len(),
    ensures
        blob_report(outs, blobs, n).0 == positions(n).filter(intact_at(outs, blobs)).len(),
        blob_report(outs, blobs, n).1 == digests_at(outs, positions(n).filter(absent_at(blobs))),
        blob_report(outs, blobs, n).2 == digests_at(outs, positions(n).filter(altered_at(outs, blobs))),
        blob_report(outs, blobs, n).0 + blob_report(outs, blobs, n).1.len()
            + blob_report(outs, blobs, n).2.len() == n,
    decreases n,
{
    broadcast use Seq::lemma_filter_push;
    if n == 0 {
        assert(positions(0) =~= Seq::<int>::empty());
        reveal(Seq::filter);
        assert(digests_at(outs, Seq::<int>::empty()) =~= Seq::<Seq<char>>::empty());
    } else {
        let k = (n - 1) as nat;
        lemma_blob_report_counts(outs, blobs, k);
        assert(positions(n) =~= positions(k).push(k as int));
        let fi = intact_at(outs, blobs);
        let fa = absent_at(blobs);
        let fc = altered_at(outs, blobs);
        assert(positions(k).push(k as int).filter(fi) == if fi(k as int) {
            positions(k).filter(fi).push(k as int)
        } else {
            positions(k).filter(fi)
        });
        assert(positions(k).push(k as int).filter(fa) == if fa(k as int) {
            positions(k).filter(fa).push(k as int)
        } else {
            positions(k).filter(fa)
        });
        assert(positions(k).push(k as int).filter(fc) == if fc(k as int) {
            positions(k).filter(fc).push(k as int)
        } else {
            positions(k).filter(fc)
        });
        assert forall|ps: Seq<int>, j: int| true implies #[trigger] digests_at(outs, ps.push(j))
            == digests_at(outs, ps).push(outs[j].digest) by {
            assert(digests_at(outs, ps.push(j)) =~= digests_at(outs, ps).push(outs[j].digest));
        }
    }
}

/// A report accounts for every output exactly once: the ok count is the
/// number of outputs whose blob is present and re-hashes to its digest,
/// `missing` lists, in order, the digests of the outputs whose blob could
/// not be read, and `corrupt` those whose blob was read but no longer
/// matches; so ok + missing + corrupt is the number of outputs.
pub proof fn lemma_report_accounts_for_every_output(
    m: crate::manifest::ManifestView,
    blobs: Seq<Option<Seq<u8>>>,
)
    requires
        blobs.len() == m.outputs.len(),
    ensures
        report_of(m, blobs).ok == positions(m.outputs.len()).filter(
            |i: int| blob_intact(m.outputs[i], blobs[i]),
        ).len(),
        report_of(m, blobs).missing == positions(m.outputs.len()).filter(
            |i: int| blobs[i] is None,
        ).map_values(|i: int| m.outputs[i].digest),
        report_of(m, blobs).corrupt == positions(m.outputs.len()).filter(
            |i: int| blobs[i] is Some && !blob_intact(m.outputs[i], blobs[i]),
        ).map_values(|i: int| m.outputs[i].digest),
        report_of(m, blobs).ok + report_of(m, blobs).missing.len() + report_of(m, blobs).corrupt.len()
            == m.outputs.len(),
{
    lemma_blob_report_counts(m.outputs, blobs, m.outputs.len());
    assert(intact_at(m.outputs, blobs) =~= (|i: int| blob_intact(m.outputs[i], blobs[i])));
    assert(absent_at(blobs) =~= (|i: int| blobs[i] is None));
    assert(altered_at(m.outputs, blobs) =~= (
    |i: int| blobs[i] is Some && !blob_intact(m.outputs[i], blobs[i])));
}

/// A relative component joined onto any base ends the joined path.
proof fn lemma_joined_suffix(base: Seq<char>, comp: Seq<char>)
    requires
        comp.len() > 0,
        comp[0] != '/',
    ensures
        joined(base, comp).len() >= comp.len(),
        joined(base, comp).skip(joined(base, comp).len() - comp.len()) == comp,
{
    let j = joined(base, comp);
    assert(j.skip(j.len() - comp.len()) =~= comp);
}

/// Blobs are content-addressed without collisions of paths: in one store,
/// two canonical digests name the same blob path exactly when they are the
/// same digest. (Identical content has one digest, hence one blob.)
pub proof fn lemma_object_path_injective(root: Seq<char>, d1: Seq<char>, d2: Seq<char>)
    requires
        is_canonical_digest(d1),
        is_canonical_digest(d2),
    ensures
        object_path_of(root, d1) == object_path_of(root, d2) <==> d1 == d2,
{
    assert(crate::hash::is_hex_char(d1[0]));
    assert(crate::hash::is_hex_char(d2[0]));
    let p1 = object_path_of(root, d1);
    let p2 = object_path_of(root, d2);
    lemma_joined_suffix(joined(joined(root, objects_name()), shard_of(d1)), d1);
    lemma_joined_suffix(joined(joined(root, objects_name()), shard_of(d2)), d2);
    if p1 == p2 {
        assert(p1.skip(p1.len() - 16) == d1);
        assert(p2.skip(p2.len() - 16) == d2);
    }
}

/// The blob part of a report, described output by output: the count of
/// intact blobs never exceeds the number looked at, and nothing is missing
/// or corrupt exactly when every blob looked at is intact (then all count).
proof fn lemma_blob_report_clean(outs: Seq<EntryView>, blobs: Seq<Option<Seq<u8>>>, n: nat)
    requires
        n <= outs.len(),
        n <= blobs.len(),
    ensures
        blob_report(outs, blobs, n).0 <= n,
        (blob_report(outs, blobs, n).1.len() == 0 && blob_report(outs, blobs, n).2.len() == 0)
            <==> (forall|i: int| 0 <= i < n ==> blob_intact(outs[i], #[trigger] blobs[i])),
        (blob_report(outs, blobs, n).1.len() == 0 && blob_report(outs, blobs, n).2.len() == 0)
            ==> blob_report(outs, blobs, n).0 == n,
    decreases n,
{
    if n > 0 {
        lemma_blob_report_clean(outs, blobs, (n - 1) as nat);
        let k = n - 1;
        if !(forall|i: int| 0 <= i < n - 1 ==> blob_intact(outs[i], #[trigger] blobs[i])) {
            let w = choose|i: int| 0 <= i < n - 1 && !blob_intact(outs[i], #[trigger] blobs[i]);
            assert(!blob_intact(outs[w], blobs[w]));
        }
        if !blob_intact(outs[k], blobs[k]) {
            assert(!(forall|i: int| 0 <= i < n ==> blob_intact(outs[i], #[trigger] blobs[i])));
        }
    }
}

/// A store is healthy for a manifest exactly when every output's blob is
/// present and re-hashes to its recorded digest and the key recomputed from
/// the inputs and the command is the stored key; a healthy report counts
/// every output as ok.
pub proof fn lemma_healthy_iff_intact(m: crate::manifest::ManifestView, blobs: Seq<Option<Seq<u8>>>)
    requires
        blobs.len() == m.outputs.len(),
    ensures
        report_healthy(report_of(m, blobs)) <==> (forall|i: int|
            0 <= i < m.outputs.len() ==> blob_intact(m.outputs[i], #[trigger] blobs[i])) && m.key
            == spec_key(m.inputs, m.command),
        report_healthy(report_of(m, blobs)) ==> report_of(m, blobs).ok == m.outputs.len(),
{
    lemma_blob_report_clean(m.outputs, blobs, m.outputs.len());
}

/// The entries are in non-decreasing byte-wise order of their paths.
pub open spec fn sorted_by_path(s: Seq<EntryView>) -> bool {
    forall|i: int, j: int| 0 <= i < j < s.len() ==> str_le(#[trigger] s[i].path, #[trigger] s[j].path)
}

/// Entries that share a path are the same entry: a file named twice is
/// recorded twice alike, and no path stands for two different contents.
pub open spec fn paths_determine_entries(s: Seq<EntryView>) -> bool {
    forall|i: int, j: int|
        0 <= i < s.len() && 0 <= j < s.len() && #[trigger] s[i].path == #[trigger] s[j].path
            ==> s[i] == s[j]
}

/// Inserting keeps every entry and adds `x`.
proof fn lemma_insert_multiset(s: Seq<EntryView>, x: EntryView)
    ensures
        insert_by_path(s, x).to_multiset() == s.to_multiset().insert(x),
        insert_by_path(s, x).len() == s.len() + 1,
    decreases s.len(),
{
    broadcast use vstd::seq_lib::group_to_multiset_ensures;
    if s.len() == 0 {
        assert(seq![x] =~= Seq::<EntryView>::empty().push(x));
    } else if str_le(s.last().path, x.path) {
    } else {
        let t = s.drop_last();
        lemma_insert_multiset(t, x);
        assert(s =~= t.push(s.last()));
    }
}

/// Inserting into sorted entries keeps them sorted.
proof fn lemma_insert_sorted(s: Seq<EntryView>, x: EntryView)
    requires
        sorted_by_path(s),
    ensures
        sorted_by_path(insert_by_path(s, x)),
    decreases s.len(),
{
    broadcast use vstd::seq_lib::group_to_multiset_ensures;
    if s.len() == 0 {
    } else if str_le(s.last().path, x.path) {
        let r = s.push(x);
        assert forall|i: int, j: int| 0 <= i < j < r.len() implies str_le(#[trigger] r[i].path, #[trigger] r[j].path) by {
            if j == r.len() - 1 && i < s.len() - 1 {
                lemma_str_le_transitive(s[i].path, s.last().path, x.path);
            }
        }
    } else {
        let t = s.drop_last();
        let l = s.last();
        lemma_str_le_total(l.path, x.path);
        lemma_insert_sorted(t, x);
        lemma_insert_multiset(t, x);
        let u = insert_by_path(t, x);
        let r = u.push(l);
        assert forall|i: int, j: int| 0 <= i < j < r.len() implies str_le(#[trigger] r[i].path, #[trigger] r[j].path) by {
            if j == r.len() - 1 {
                let e = u[i];
                assert(u.to_multiset().count(e) > 0);
                assert(t.to_multiset().insert(x).count(e) > 0);
                if e != x {
                    assert(t.to_multiset().count(e) > 0);
                    assert(t.contains(e));
                    let k = choose|k: int| 0 <= k < t.len() && t[k] == e;
                    assert(s[k] == e);
                }
            }
        }
    }
}

/// Sorting by path yields entries sorted by path, and the same entries.
pub proof fn lemma_sort_by_path_sorted_permutation(s: Seq<EntryView>)
    ensures
        sorted_by_path(sort_by_path(s)),
        sort_by_path(s).to_multiset() == s.to_multiset(),
        sort_by_path(s).len() == s.len(),
    decreases s.len(),
{
    broadcast use vstd::seq_lib::group_to_multiset_ensures;
    if s.len() > 0 {
        let t = s.drop_last();
        lemma_sort_by_path_sorted_permutation(t);
        lemma_insert_sorted(sort_by_path(t), s.last());
        lemma_insert_multiset(sort_by_path(t), s.last());
        assert(s =~= t.push(s.last()));
    }
}

/// Two sorted sequences of the same entries, where entries that share a
/// path are equal, are the same sequence.
proof fn lemma_sorted_unique(a: Seq<EntryView>, b: Seq<EntryView>)
    requires
        sorted_by_path(a),
        sorted_by_path(b),
        paths_determine_entries(a),
        a.to_multiset() == b.to_multiset(),
    ensures
        a == b,
    decreases a.len(),
{
    broadcast use vstd::seq_lib::group_to_multiset_ensures;
    assert(b.len() == a.len()) by {
        assert(a.to_multiset().len() == a.len());
        assert(b.to_multiset().len() == b.len());
    }
    if a.len() == 0 {
        assert(a =~= b);
    } else {
        let x = a.last();
        let y = b.last();
        assert(a.contains(x));
        assert(b.to_multiset().count(x) > 0);
        assert(b.contains(x));
        assert(b.contains(y));
        assert(a.to_multiset().count(y) > 0);
        assert(a.contains(y));
        let ix = choose|k: int| 0 <= k < b.len() && b[k] == x;
        let iy = choose|k: int| 0 <= k < a.len() && a[k] == y;
        // Each last entry is at least every entry of the other sequence.
        lemma_str_le_total(x.path, x.path);
        if ix < b.len() - 1 {
            assert(str_le(b[ix].path, b[b.len() - 1].path));
        }
        if iy < a.len() - 1 {
            assert(str_le(a[iy].path, a[a.len() - 1].path));
        }
        assert(str_le(x.path, y.path));
        assert(str_le(y.path, x.path));
        lemma_str_le_antisymmetric(x.path, y.path);
        assert(a[iy].path == a[a.len() - 1].path);
        assert(x == y);
        let a2 = a.drop_last();
        let b2 = b.drop_last();
        assert(a =~= a2.push(x));
        assert(b =~= b2.push(x));
        assert(a2.to_multiset() =~= a.to_multiset().remove(x));
        assert(b2.to_multiset() =~= b.to_multiset().remove(x));
        assert forall|i: int, j: int|
            0 <= i < a2.len() && 0 <= j < a2.len() && #[trigger] a2[i].path == #[trigger] a2[j].path
            implies a2[i] == a2[j] by {
            assert(a2[i] == a[i] && a2[j] == a[j]);
        }
        lemma_sorted_unique(a2, b2);
    }
}

/// A rearrangement of entries where shared paths mean equal entries keeps
/// that property.
proof fn lemma_paths_determine_entries_multiset(s: Seq<EntryView>, a: Seq<EntryView>)
    requires
        paths_determine_entries(s),
        a.to_multiset() == s.to_multiset(),
    ensures
        paths_determine_entries(a),
{
    broadcast use vstd::seq_lib::group_to_multiset_ensures;
    assert forall|i: int, j: int|
        0 <= i < a.len() && 0 <= j < a.len() && #[trigger] a[i].path == #[trigger] a[j].path
        implies a[i] == a[j] by {
        assert(a.contains(a[i]));
        assert(a.contains(a[j]));
        assert(a.to_multiset().count(a[i]) > 0);
        assert(a.to_multiset().count(a[j]) > 0);
        assert(s.contains(a[i]));
        assert(s.contains(a[j]));
        let ki = choose|k: int| 0 <= k < s.len() && s[k] == a[i];
        let kj = choose|k: int| 0 <= k < s.len() && s[k] == a[j];
        assert(s[ki].path == s[kj].path);
    }
}

/// The order in which files are named does not change the sorted entries,
/// as long as entries that share a path are equal (a file named twice is
/// recorded twice alike): `-i b.c -i a.c` and `-i a.c -i b.c` give the same
/// entries, and so do `-i a.c -i b.c -i a.c` and `-i a.c -i a.c -i b.c`.
pub proof fn lemma_sort_by_path_order_independent(s1: Seq<EntryView>, s2: Seq<EntryView>)
    requires
        s1.to_multiset() == s2.to_multiset(),
        paths_determine_entries(s1),
    ensures
        sort_by_path(s1) == sort_by_path(s2),
{
    lemma_sort_by_path_sorted_permutation(s1);
    lemma_sort_by_path_sorted_permutation(s2);
    lemma_paths_determine_entries_multiset(s1, sort_by_path(s1));
    lemma_sorted_unique(sort_by_path(s1), sort_by_path(s2));
}

/// Normalized paths use forward slashes only, and normalizing again changes
/// nothing: a path recorded on one platform reads the same on every other.
pub proof fn lemma_normalized_forward_slashes(p: Seq<char>)
    ensures
        forall|i: int| 0 <= i < normalized(p).len() ==> #[trigger] normalized(p)[i] != '\\',
        normalized(normalized(p)) == normalized(p),
{
    assert(normalized(normalized(p)) =~= normalized(p));
}

/// Naming the same files in another order gives the same cache key, as long
/// as files that share a (normalized) path have the same contents (a file
/// named twice, for one): the inputs are sorted by path before they are
/// hashed into the key.
pub proof fn lemma_key_independent_of_input_order(
    paths1: Seq<Seq<char>>,
    contents1: Seq<Seq<u8>>,
    paths2: Seq<Seq<char>>,
    contents2: Seq<Seq<u8>>,
    command: Seq<Seq<char>>,
)
    requires
        paths1.len() == contents1.len(),
        paths2.len() == contents2.len(),
        entries_for(paths1, contents1).to_multiset() == entries_for(paths2, contents2).to_multiset(),
        paths_determine_entries(entries_for(paths1, contents1)),
    ensures
        sort_by_path(entries_for(paths1, contents1)) == sort_by_path(entries_for(paths2, contents2)),
        spec_key(sort_by_path(entries_for(paths1, contents1)), command) == spec_key(
            sort_by_path(entries_for(paths2, contents2)),
            command,
        ),
{
    lemma_sort_by_path_order_independent(entries_for(paths1, contents1), entries_for(paths2, contents2));
}

} // verus!
