//! The blobs that back models: how layers are named, which of them installed
//! models hold on to, and which files a cancelled download leaves to delete.

use vstd::hash_set::StringHashSet;
use vstd::prelude::*;

use crate::blob_laws::law_deletes_what_digests_let_go;
use crate::json::{document_in_text, parse_json, text_fields, Json, JsonTree, Member, MemberTree};
use crate::text::{
    between, chars_of, optional_text, same, starts_with, texts, trim, trimmed,
};

verus! {

/// Tells whether `s` begins with the name of the hash, in one of its spellings.
pub open spec fn names_hash(s: Seq<char>) -> bool {
    s.len() >= 7 && ("sha256:"@.is_prefix_of(s) || "sha256-"@.is_prefix_of(s))
}

/// `s` without the name of the hash in front, as often as it stands there and in
/// whichever spelling.
pub open spec fn nameless(s: Seq<char>) -> Seq<char>
    decreases s.len(),
{
    if names_hash(s) {
        nameless(s.skip(7))
    } else {
        s
    }
}

/// A digest as it appears in the file name of a blob: with no white space
/// around it and without the name of the hash in front.
pub open spec fn bare(d: Seq<char>) -> Seq<char> {
    nameless(trim(d))
}

/// What is left without the name of the hash begins with neither spelling of it.
pub proof fn lemma_nameless(s: Seq<char>)
    ensures
        !"sha256:"@.is_prefix_of(nameless(s)),
        !"sha256-"@.is_prefix_of(nameless(s)),
    decreases s.len(),
{
    reveal_strlit("sha256:");
    reveal_strlit("sha256-");
    if names_hash(s) {
        lemma_nameless(s.skip(7));
    }
}

/// The digest `d` as it appears in the file name of a blob.
pub fn bare_digest(d: &str) -> (out: String)
    ensures
        out@ == bare(d@),
        !"sha256:"@.is_prefix_of(out@),
        !"sha256-"@.is_prefix_of(out@),
{
    let mut out = trimmed(d);
    proof {
        reveal_strlit("sha256:");
        reveal_strlit("sha256-");
        lemma_nameless(out@);
    }
    while starts_with(&out, "sha256:") || starts_with(&out, "sha256-")
        invariant
            "sha256:"@.len() == 7,
            "sha256-"@.len() == 7,
            nameless(out@) == bare(d@),
        decreases out@.len(),
    {
        let len: usize = chars_of(&out).len();
        assert(out@.subrange(7, len as int) == out@.skip(7));
        out = between(&out, 7, len);
    }
    out
}

/// The digests that a manifest names: that of its configuration, then those of
/// its layers.
pub open spec fn named_digests(doc: JsonTree) -> Seq<Seq<char>> {
    let config = match doc.field("config"@) {
        Some(config) => config.text_field("digest"@),
        None => None,
    };
    let layers = text_fields(doc.array_field("layers"@), "digest"@);
    match config {
        Some(digest) => seq![digest] + layers,
        None => layers,
    }
}

/// The digests that a manifest names, each as in the file name of its blob.
pub fn digests_in(doc: &Json) -> (out: Vec<String>)
    ensures
        texts(out@) == named_digests(doc@).map_values(|d: Seq<char>| bare(d)),
{
    let mut out: Vec<String> = Vec::new();
    let ghost all = named_digests(doc@);
    if let Some(config) = doc.get("config") {
        if let Some(digest) = config.get_text("digest") {
            out.push(bare_digest(digest));
        }
    }
    let layers = doc.get_texts("layers", "digest");
    let ghost head = out@.len();
    let mut i: usize = 0;
    while i < layers.len()
        invariant
            i <= layers@.len(),
            out@.len() == head + i,
            all.len() == head + layers@.len(),
            forall|j: int| 0 <= j < layers@.len() ==> texts(layers@)[j] == all[head + j],
            forall|j: int| 0 <= j < out@.len() ==> out@[j]@ == bare(all[j]),
        decreases layers@.len() - i,
    {
        assert(texts(layers@)[i as int] == layers@[i as int]@);
        out.push(bare_digest(&layers[i]));
        i = i + 1;
    }
    assert(texts(out@) =~= all.map_values(|d: Seq<char>| bare(d)));
    out
}

/// Tells whether the text of a manifest names the bare digest `h`.
pub open spec fn manifest_names(manifest: Seq<char>, h: Seq<char>) -> bool {
    match document_in_text(manifest) {
        Some(doc) => named_digests(doc).map_values(|d: Seq<char>| bare(d)).contains(h),
        None => false,
    }
}

/// Tells whether one of `manifests` may name the bare digest `h`. One that could
/// not be read, which is `None` here, may name any digest.
pub open spec fn installed(manifests: Seq<Option<Seq<char>>>, h: Seq<char>) -> bool {
    exists|i: int|
        0 <= i < manifests.len() && match #[trigger] manifests[i] {
            Some(text) => manifest_names(text, h),
            None => true,
        }
}

/// The bare digests that `manifests` may name.
pub open spec fn installed_set(manifests: Seq<Option<Seq<char>>>) -> Set<Seq<char>> {
    Set::new(|h: Seq<char>| installed(manifests, h))
}

/// The texts of manifests, as far as they could be read.
pub open spec fn manifest_texts(manifests: Seq<Option<String>>) -> Seq<Option<Seq<char>>> {
    manifests.map_values(|m: Option<String>| optional_text(m))
}

/// The bare digests that belong to installed models: those that are listed, or
/// any where it is not known which do.
pub struct Protected {
    everything: bool,
    digests: StringHashSet,
}

impl View for Protected {
    type V = Set<Seq<char>>;

    closed spec fn view(&self) -> Set<Seq<char>> {
        if self.everything {
            Set::full()
        } else {
            self.digests@
        }
    }
}

impl Protected {
    /// No digest is protected.
    pub fn new() -> (protected: Self)
        ensures
            protected@ == Set::<Seq<char>>::empty(),
    {
        Protected { everything: false, digests: StringHashSet::new() }
    }

    /// Tells whether the bare digest `h` is protected.
    pub fn contains(&self, h: &str) -> (yes: bool)
        ensures
            yes == self@.contains(h@),
    {
        self.everything || self.digests.contains(h)
    }

    /// Protects every digest.
    pub fn add_everything(&mut self)
        ensures
            final(self)@ == Set::<Seq<char>>::full(),
    {
        self.everything = true;
    }

    /// Protects the digests that a manifest names.
    pub fn add_manifest(&mut self, doc: &Json)
        ensures
            final(self)@ == old(self)@.union(
                named_digests(doc@).map_values(|d: Seq<char>| bare(d)).to_set(),
            ),
    {
        let digests = digests_in(doc);
        let ghost names = named_digests(doc@).map_values(|d: Seq<char>| bare(d));
        let mut i: usize = 0;
        assert(names.take(0).to_set() =~= Set::<Seq<char>>::empty());
        while i < digests.len()
            invariant
                i <= digests@.len(),
                texts(digests@) == names,
                self@ == old(self)@.union(names.take(i as int).to_set()),
            decreases digests@.len() - i,
        {
            let ghost before = names.take(i as int);
            let ghost now = names.take(i + 1);
            assert(texts(digests@)[i as int] == digests@[i as int]@);
            self.digests.insert(digests[i].clone());
            proof {
                assert(now == before.push(names[i as int]));
                assert forall|h: Seq<char>| now.contains(h) <==> before.contains(h) || h
                    == names[i as int] by {
                    if before.contains(h) {
                        let k = before.index_of(h);
                        assert(now[k] == h);
                    }
                    assert(now[i as int] == names[i as int]);
                    if now.contains(h) {
                        let k = choose|k: int| 0 <= k < now.len() && now[k] == h;
                        if k < i {
                            assert(before[k] == h);
                        }
                    }
                }
                assert(now.to_set() =~= before.to_set().insert(names[i as int]));
                assert(self@ =~= old(self)@.union(now.to_set()));
            }
            i = i + 1;
        }
        assert(names.take(i as int) == names);
    }
}

/// The bare digests that the manifests on disk may name: those of the blobs that
/// belong to installed models. A manifest that is no JSON document names none; for
/// one that could not be read every digest is protected.
pub fn manifest_digests(manifests: &Vec<Option<String>>) -> (out: Protected)
    ensures
        out@ == installed_set(manifest_texts(manifests@)),
{
    let mut out = Protected::new();
    let ghost all = manifest_texts(manifests@);
    let mut i: usize = 0;
    assert(out@ =~= installed_set(all.take(0)));
    while i < manifests.len()
        invariant
            i <= manifests@.len(),
            all == manifest_texts(manifests@),
            out@ == installed_set(all.take(i as int)),
        decreases manifests@.len() - i,
    {
        let ghost had = out@;
        assert(all[i as int] == optional_text(manifests@[i as int]));
        match &manifests[i] {
            Some(text) => {
                if let Some(doc) = parse_json(text) {
                    out.add_manifest(&doc);
                }
            },
            None => out.add_everything(),
        }
        proof {
            lemma_installed_step(all, i as int);
            assert forall|h: Seq<char>|
                out@.contains(h) <==> #[trigger] installed_set(all.take(i + 1)).contains(h) by {
                assert(had.contains(h) <==> installed(all.take(i as int), h));
            }
            assert(out@ =~= installed_set(all.take(i + 1)));
        }
        i = i + 1;
    }
    assert(all.take(i as int) == all);
    out
}

proof fn lemma_installed_step(all: Seq<Option<Seq<char>>>, i: int)
    requires
        0 <= i < all.len(),
    ensures
        forall|h: Seq<char>| #[trigger]
            installed(all.take(i + 1), h) <==> installed(all.take(i), h) || match all[i] {
                Some(text) => manifest_names(text, h),
                None => true,
            },
{
    let before = all.take(i);
    let now = all.take(i + 1);
    assert forall|h: Seq<char>| #[trigger]
        installed(now, h) <==> installed(before, h) || match all[i] {
            Some(text) => manifest_names(text, h),
            None => true,
        } by {
        if installed(before, h) {
            let k = choose|k: int|
                0 <= k < before.len() && match #[trigger] before[k] {
                    Some(text) => manifest_names(text, h),
                    None => true,
                };
            assert(now[k] == before[k]);
        }
        assert(now[i] == all[i]);
        if installed(now, h) {
            let k = choose|k: int|
                0 <= k < now.len() && match #[trigger] now[k] {
                    Some(text) => manifest_names(text, h),
                    None => true,
                };
            if k < i {
                assert(before[k] == now[k]);
            }
        }
    }
}

/// The file name of a finished blob.
pub open spec fn stem(h: Seq<char>) -> Seq<char> {
    "sha256-"@ + h
}

/// What the file name of every unfinished part of a blob begins with.
pub open spec fn partial_prefix(h: Seq<char>) -> Seq<char> {
    stem(h) + "-partial"@
}

/// Tells whether the file `name` is the blob of `h`, finished or in part.
pub open spec fn belongs_to(name: Seq<char>, h: Seq<char>) -> bool {
    name == stem(h) || partial_prefix(h).is_prefix_of(name)
}

/// Tells whether one of the digests in `keep` is `h`, once bare.
pub open spec fn kept(keep: Seq<Seq<char>>, h: Seq<char>) -> bool {
    exists|i: int| 0 <= i < keep.len() && bare(#[trigger] keep[i]) == h
}

/// Tells whether cancelling the digest `d` lets the file `name` go. Nothing of
/// a kept digest goes, and no finished blob of a protected one.
pub open spec fn removable(
    name: Seq<char>,
    d: Seq<char>,
    keep: Seq<Seq<char>>,
    protected: Set<Seq<char>>,
) -> bool {
    let h = bare(d);
    &&& h.len() > 0
    &&& !kept(keep, h)
    &&& partial_prefix(h).is_prefix_of(name) || (name == stem(h) && !protected.contains(h))
}

/// A file in the directory of blobs.
#[derive(Debug, PartialEq, Eq)]
pub struct BlobEntry {
    pub name: String,
    pub bytes: u64,
}

/// A file to delete: its place in the listing, and what that frees.
#[derive(Clone, Copy, Debug, PartialEq, Eq, Structural)]
pub struct Removal {
    pub entry: usize,
    pub bytes: u64,
}

/// The files of a listing that cancelling the digest `d` lets go, in order.
pub open spec fn removals_for(
    entries: Seq<BlobEntry>,
    d: Seq<char>,
    keep: Seq<Seq<char>>,
    protected: Set<Seq<char>>,
) -> Seq<Removal>
    decreases entries.len(),
{
    if entries.len() == 0 {
        Seq::empty()
    } else {
        let before = removals_for(entries.drop_last(), d, keep, protected);
        if removable(entries.last().name@, d, keep, protected) {
            before.push(
                Removal { entry: (entries.len() - 1) as usize, bytes: entries.last().bytes },
            )
        } else {
            before
        }
    }
}

/// The files of a listing that cancelling each of `digests` lets go, one digest
/// after the other.
pub open spec fn removals(
    entries: Seq<BlobEntry>,
    digests: Seq<Seq<char>>,
    keep: Seq<Seq<char>>,
    protected: Set<Seq<char>>,
) -> Seq<Removal>
    decreases digests.len(),
{
    if digests.len() == 0 {
        Seq::empty()
    } else {
        removals(entries, digests.drop_last(), keep, protected) + removals_for(
            entries,
            digests.last(),
            keep,
            protected,
        )
    }
}

/// The bare forms of a list of digests, as a set.
fn bare_set(digests: &Vec<String>) -> (out: StringHashSet)
    ensures
        forall|h: Seq<char>| out@.contains(h) <==> kept(texts(digests@), h),
{
    let mut out = StringHashSet::new();
    let ghost all = texts(digests@);
    let mut i: usize = 0;
    while i < digests.len()
        invariant
            i <= digests@.len(),
            all == texts(digests@),
            forall|h: Seq<char>| out@.contains(h) <==> kept(all.take(i as int), h),
        decreases digests@.len() - i,
    {
        let ghost had = out@;
        assert(all[i as int] == digests@[i as int]@);
        out.insert(bare_digest(&digests[i]));
        proof {
            let before = all.take(i as int);
            let now = all.take(i + 1);
            assert forall|h: Seq<char>| out@.contains(h) <==> #[trigger] kept(now, h) by {
                assert(had.contains(h) <==> kept(before, h));
                if kept(before, h) {
                    let k = choose|k: int| 0 <= k < before.len() && bare(#[trigger] before[k]) == h;
                    assert(bare(now[k]) == h);
                }
                assert(now[i as int] == all[i as int]);
                if kept(now, h) {
                    let k = choose|k: int| 0 <= k < now.len() && bare(#[trigger] now[k]) == h;
                    if k < i {
                        assert(bare(before[k]) == h);
                    }
                }
            }
        }
        i = i + 1;
    }
    assert(all.take(i as int) == all);
    out
}

/// Decides which files of the directory of blobs to delete when the download of
/// `digests` is cancelled. `keep` are digests still wanted elsewhere. Whatever is
/// passed for those two, what `manifests` name is protected; and where one of them
/// could not be read, which is `None` here, every finished blob is.
pub fn purge_blobs(
    digests: &Vec<String>,
    keep: &Vec<String>,
    manifests: &Vec<Option<String>>,
    entries: &Vec<BlobEntry>,
) -> (out: Vec<Removal>)
    ensures
        out@ == removals(
            entries@,
            texts(digests@),
            texts(keep@),
            installed_set(manifest_texts(manifests@)),
        ),
        forall|k: int|
            0 <= k < out@.len() ==> (#[trigger] out@[k]).entry < entries@.len() && out@[k].bytes
                == entries@[out@[k].entry as int].bytes,
{
    let protected = manifest_digests(manifests);
    proof {
        assert(entries.len() == entries@.len());
        law_deletes_what_digests_let_go(entries@, texts(digests@), texts(keep@), protected@);
    }
    purge_plan(digests, keep, &protected, entries)
}

/// Decides which files of the directory of blobs to delete when the download of
/// `digests` is cancelled, given the bare digests that are protected.
pub fn purge_plan(
    digests: &Vec<String>,
    keep: &Vec<String>,
    protected: &Protected,
    entries: &Vec<BlobEntry>,
) -> (out: Vec<Removal>)
    ensures
        out@ == removals(entries@, texts(digests@), texts(keep@), protected@),
{
    let keep_set = bare_set(keep);
    let ghost kept_digests = texts(keep@);
    let ghost all = texts(digests@);
    let mut out: Vec<Removal> = Vec::new();
    let mut i: usize = 0;
    assert(all.take(0) == Seq::<Seq<char>>::empty());
    while i < digests.len()
        invariant
            i <= digests@.len(),
            all == texts(digests@),
            kept_digests == texts(keep@),
            forall|h: Seq<char>| keep_set@.contains(h) <==> kept(kept_digests, h),
            out@ == removals(entries@, all.take(i as int), kept_digests, protected@),
        decreases digests@.len() - i,
    {
        assert(all.take(i + 1).drop_last() == all.take(i as int));
        assert(all.take(i + 1).last() == digests@[i as int]@);
        purge_digest(&digests[i], &keep_set, protected, entries, Ghost(kept_digests), &mut out);
        i = i + 1;
    }
    assert(all.take(i as int) == all);
    out
}

/// Adds the files that cancelling the digest `d` lets go.
fn purge_digest(
    d: &String,
    keep_set: &StringHashSet,
    protected: &Protected,
    entries: &Vec<BlobEntry>,
    Ghost(keep): Ghost<Seq<Seq<char>>>,
    out: &mut Vec<Removal>,
)
    requires
        forall|h: Seq<char>| keep_set@.contains(h) <==> kept(keep, h),
    ensures
        final(out)@ == old(out)@ + removals_for(entries@, d@, keep, protected@),
{
    let hex = bare_digest(d);
    let mut name = "sha256-".to_owned();
    name.append(&hex);
    let mut prefix = name.clone();
    prefix.append("-partial");
    let wanted_elsewhere = keep_set.contains(&hex);
    let complete_is_safe = !protected.contains(&hex) && !wanted_elsewhere;
    let empty = hex.as_str().is_empty();
    let mut i: usize = 0;
    assert(entries@.take(0) == Seq::<BlobEntry>::empty());
    while i < entries.len()
        invariant
            i <= entries@.len(),
            hex@ == bare(d@),
            empty == (hex@.len() == 0),
            name@ == stem(hex@),
            prefix@ == partial_prefix(hex@),
            wanted_elsewhere == kept(keep, hex@),
            complete_is_safe == (!protected@.contains(hex@) && !wanted_elsewhere),
            out@ == old(out)@ + removals_for(entries@.take(i as int), d@, keep, protected@),
        decreases entries@.len() - i,
    {
        assert(entries@.take(i + 1).drop_last() == entries@.take(i as int));
        assert(entries@.take(i + 1).last() == entries@[i as int]);
        let is_partial = starts_with(&entries[i].name, &prefix) && !wanted_elsewhere;
        let is_complete = same(&entries[i].name, &name);
        if !empty && (is_partial || (is_complete && complete_is_safe)) {
            out.push(Removal { entry: i, bytes: entries[i].bytes });
        }
        i = i + 1;
    }
    assert(entries@.take(i as int) == entries@);
}

/// The bytes freed by those deletions of a plan that took place.
pub open spec fn freed(plan: Seq<Removal>, removed: Seq<bool>) -> nat
    decreases plan.len(),
{
    if plan.len() == 0 {
        0
    } else {
        let i = plan.len() - 1;
        freed(plan.drop_last(), removed) + if i < removed.len() && removed[i] {
            plan[i].bytes as nat
        } else {
            0
        }
    }
}

proof fn lemma_freed_grows(plan: Seq<Removal>, removed: Seq<bool>, i: int)
    requires
        0 <= i <= plan.len(),
    ensures
        freed(plan.take(i), removed) <= freed(plan, removed),
    decreases plan.len(),
{
    if i < plan.len() {
        lemma_freed_grows(plan.drop_last(), removed, i);
        assert(plan.drop_last().take(i) == plan.take(i));
    } else {
        assert(plan.take(i) == plan);
    }
}

/// The bytes actually freed, where `removed` tells of each deletion of the plan
/// whether it took place. There is no result where the count would not fit.
pub fn freed_bytes(plan: &Vec<Removal>, removed: &Vec<bool>) -> (total: Option<u64>)
    ensures
        match total {
            Some(t) => t == freed(plan@, removed@),
            None => freed(plan@, removed@) > u64::MAX,
        },
{
    let mut total: u64 = 0;
    let mut i: usize = 0;
    while i < plan.len()
        invariant
            i <= plan@.len(),
            total == freed(plan@.take(i as int), removed@),
        decreases plan@.len() - i,
    {
        proof {
            assert(plan@.take(i + 1).drop_last() == plan@.take(i as int));
            lemma_freed_grows(plan@, removed@, i + 1);
        }
        if i < removed.len() && removed[i] {
            match total.checked_add(plan[i].bytes) {
                Some(sum) => total = sum,
                None => return None,
            }
        }
        i = i + 1;
    }
    assert(plan@.take(i as int) == plan@);
    Some(total)
}

/// What is known of a file in the directory of blobs.
#[derive(Clone, Copy, Debug, PartialEq, Eq, Structural)]
pub struct FileStat {
    pub is_file: bool,
    pub bytes: u64,
}

/// The bytes that the regular files of a listing occupy; a file of which nothing
/// is known counts for nothing.
pub open spec fn occupied(stats: Seq<Option<FileStat>>) -> nat
    decreases stats.len(),
{
    if stats.len() == 0 {
        0
    } else {
        occupied(stats.drop_last()) + match stats.last() {
            Some(stat) => if stat.is_file {
                stat.bytes as nat
            } else {
                0
            },
            None => 0,
        }
    }
}

proof fn lemma_occupied_grows(stats: Seq<Option<FileStat>>, i: int)
    requires
        0 <= i <= stats.len(),
    ensures
        occupied(stats.take(i)) <= occupied(stats),
    decreases stats.len(),
{
    if i < stats.len() {
        lemma_occupied_grows(stats.drop_last(), i);
        assert(stats.drop_last().take(i) == stats.take(i));
    } else {
        assert(stats.take(i) == stats);
    }
}

/// How much room the blobs take, and where they are.
#[derive(Debug, PartialEq, Eq)]
pub struct DiskUsage {
    pub bytes: u64,
    pub path: String,
}

/// How much room the blobs take, given the directory of the models and what is
/// known of each file among its blobs. Without such a directory they take none.
/// There is no result where the count would not fit.
pub fn models_disk_usage(dir: Option<String>, stats: &Vec<Option<FileStat>>) -> (usage: Option<
    DiskUsage,
>)
    ensures
        match (dir, usage) {
            (None, Some(u)) => u.bytes == 0 && u.path@ == ""@,
            (None, None) => false,
            (Some(path), Some(u)) => u.bytes == occupied(stats@) && u.path@ == path@,
            (Some(path), None) => occupied(stats@) > u64::MAX,
        },
{
    let path = match dir {
        Some(path) => path,
        None => return Some(DiskUsage { bytes: 0, path: "".to_owned() }),
    };
    let mut total: u64 = 0;
    let mut i: usize = 0;
    while i < stats.len()
        invariant
            dir == Some(path),
            i <= stats@.len(),
            total == occupied(stats@.take(i as int)),
        decreases stats@.len() - i,
    {
        proof {
            assert(stats@.take(i + 1).drop_last() == stats@.take(i as int));
            lemma_occupied_grows(stats@, i + 1);
        }
        if let Some(stat) = stats[i] {
            if stat.is_file {
                match total.checked_add(stat.bytes) {
                    Some(sum) => total = sum,
                    None => return None,
                }
            }
        }
        i = i + 1;
    }
    assert(stats@.take(i as int) == stats@);
    Some(DiskUsage { bytes: total, path })
}

impl DiskUsage {
    /// The form in which the usage is handed on.
    pub fn payload(&self) -> (json: Json)
        ensures
            json@ == JsonTree::Object(
                seq![
                    MemberTree::new("bytes"@, JsonTree::number(self.bytes as nat)),
                    MemberTree::new("path"@, JsonTree::Text(self.path@)),
                ],
            ),
    {
        Json::object_of_two(
            Member::new("bytes", Json::number(self.bytes)),
            Member::new("path", Json::text(&self.path)),
        )
    }
}

} // verus!
