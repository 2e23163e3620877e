//! What holds of every cancelled download, whatever files lie on disk.

use vstd::prelude::*;

use crate::blobs::{
    bare, belongs_to, freed, installed, installed_set, kept, lemma_nameless, manifest_names,
    manifest_texts, named_digests, nameless, occupied, partial_prefix, removable, removals,
    removals_for, stem, BlobEntry, FileStat, Removal,
};
use crate::json::{document_in_text, law_strings_are_found_at_every_place, text_fields, JsonTree};
use crate::text::{is_white, law_trim_ignores_white_space_around, lemma_trim_nothing, trim};

verus! {

/// Tells whether a plan deletes the file at place `e` of the listing.
pub open spec fn deletes(plan: Seq<Removal>, e: int) -> bool {
    exists|k: int| 0 <= k < plan.len() && (#[trigger] plan[k]).entry == e
}

/// Tells whether one of `digests` lets the file `name` go.
pub open spec fn some_digest_lets_go(
    name: Seq<char>,
    digests: Seq<Seq<char>>,
    keep: Seq<Seq<char>>,
    protected: Set<Seq<char>>,
) -> bool {
    exists|i: int| 0 <= i < digests.len() && removable(name, #[trigger] digests[i], keep, protected)
}

/// Tells whether `h` consists of hexadecimal digits.
pub open spec fn is_hex(h: Seq<char>) -> bool {
    forall|i: int|
        0 <= i < h.len() ==> {
            ||| '0' <= #[trigger] h[i] <= '9'
            ||| 'a' <= h[i] <= 'f'
            ||| 'A' <= h[i] <= 'F'
        }
}

proof fn lemma_removals_for(
    entries: Seq<BlobEntry>,
    d: Seq<char>,
    keep: Seq<Seq<char>>,
    protected: Set<Seq<char>>,
)
    requires
        entries.len() <= usize::MAX,
    ensures
        ({
            let plan = removals_for(entries, d, keep, protected);
            &&& forall|k: int|
                0 <= k < plan.len() ==> (#[trigger] plan[k]).entry < entries.len()
                    && plan[k].bytes == entries[plan[k].entry as int].bytes
            &&& forall|e: int|
                0 <= e < entries.len() ==> (deletes(plan, e) <==> removable(
                    (#[trigger] entries[e]).name@,
                    d,
                    keep,
                    protected,
                ))
        }),
    decreases entries.len(),
{
    let plan = removals_for(entries, d, keep, protected);
    if entries.len() > 0 {
        let head = entries.drop_last();
        let before = removals_for(head, d, keep, protected);
        lemma_removals_for(head, d, keep, protected);
        let last = entries.len() - 1;
        assert forall|k: int| 0 <= k < plan.len() implies (#[trigger] plan[k]).entry < entries.len()
            && plan[k].bytes == entries[plan[k].entry as int].bytes by {
            if k < before.len() {
                assert(plan[k] == before[k]);
                assert(head[before[k].entry as int] == entries[before[k].entry as int]);
            }
        }
        assert forall|e: int| 0 <= e < entries.len() implies (deletes(plan, e) <==> removable(
            (#[trigger] entries[e]).name@,
            d,
            keep,
            protected,
        )) by {
            if deletes(before, e) {
                let k = choose|k: int| 0 <= k < before.len() && (#[trigger] before[k]).entry == e;
                assert(plan[k].entry == e);
            }
            if deletes(plan, e) {
                let k = choose|k: int| 0 <= k < plan.len() && (#[trigger] plan[k]).entry == e;
                if k < before.len() {
                    assert(before[k].entry == e);
                    assert(deletes(before, e));
                }
            }
            if e < last {
                assert(head[e] == entries[e]);
            } else {
                if removable(entries[e].name@, d, keep, protected) {
                    assert(plan.last().entry == e);
                }
            }
        }
    }
}

/// A cancelled download deletes just the files that one of its digests lets go,
/// and counts for each the bytes that the listing gives it.
pub proof fn law_deletes_what_digests_let_go(
    entries: Seq<BlobEntry>,
    digests: Seq<Seq<char>>,
    keep: Seq<Seq<char>>,
    protected: Set<Seq<char>>,
)
    requires
        entries.len() <= usize::MAX,
    ensures
        ({
            let plan = removals(entries, digests, keep, protected);
            &&& forall|k: int|
                0 <= k < plan.len() ==> (#[trigger] plan[k]).entry < entries.len()
                    && plan[k].bytes == entries[plan[k].entry as int].bytes
            &&& forall|e: int|
                0 <= e < entries.len() ==> (deletes(plan, e) <==> some_digest_lets_go(
                    (#[trigger] entries[e]).name@,
                    digests,
                    keep,
                    protected,
                ))
        }),
    decreases digests.len(),
{
    let plan = removals(entries, digests, keep, protected);
    if digests.len() > 0 {
        let head = digests.drop_last();
        let last = digests.last();
        let before = removals(entries, head, keep, protected);
        let more = removals_for(entries, last, keep, protected);
        law_deletes_what_digests_let_go(entries, head, keep, protected);
        lemma_removals_for(entries, last, keep, protected);
        assert forall|k: int| 0 <= k < plan.len() implies (#[trigger] plan[k]).entry < entries.len()
            && plan[k].bytes == entries[plan[k].entry as int].bytes by {
            if k < before.len() {
                assert(plan[k] == before[k]);
            } else {
                assert(plan[k] == more[k - before.len()]);
            }
        }
        assert forall|e: int| 0 <= e < entries.len() implies (deletes(plan, e)
            <==> some_digest_lets_go((#[trigger] entries[e]).name@, digests, keep, protected)) by {
            let name = entries[e].name@;
            if deletes(before, e) {
                let k = choose|k: int| 0 <= k < before.len() && (#[trigger] before[k]).entry == e;
                assert(plan[k].entry == e);
            }
            if deletes(more, e) {
                let k = choose|k: int| 0 <= k < more.len() && (#[trigger] more[k]).entry == e;
                assert(plan[before.len() + k].entry == e);
            }
            if deletes(plan, e) {
                let k = choose|k: int| 0 <= k < plan.len() && (#[trigger] plan[k]).entry == e;
                if k < before.len() {
                    assert(before[k].entry == e);
                } else {
                    assert(more[k - before.len()].entry == e);
                }
            }
            if some_digest_lets_go(name, head, keep, protected) {
                let i = choose|i: int|
                    0 <= i < head.len() && removable(name, #[trigger] head[i], keep, protected);
                assert(removable(name, digests[i], keep, protected));
            }
            if removable(name, last, keep, protected) {
                assert(removable(name, digests[digests.len() - 1], keep, protected));
            }
            if some_digest_lets_go(name, digests, keep, protected) {
                let i = choose|i: int|
                    0 <= i < digests.len() && removable(
                        name,
                        #[trigger] digests[i],
                        keep,
                        protected,
                    );
                if i < head.len() {
                    assert(removable(name, head[i], keep, protected));
                }
            }
        }
    }
}

/// A finished blob that a manifest on disk names is never deleted, whatever is
/// cancelled and kept. The one exception is a blob whose digest goes on, after a
/// cancelled digest, as the name of a part does.
pub proof fn law_installed_blob_survives(
    entries: Seq<BlobEntry>,
    digests: Seq<Seq<char>>,
    keep: Seq<Seq<char>>,
    manifests: Seq<Option<Seq<char>>>,
    h: Seq<char>,
    e: int,
)
    requires
        entries.len() <= usize::MAX,
        installed(manifests, h),
        0 <= e < entries.len(),
        entries[e].name@ == stem(h),
        forall|i: int|
            0 <= i < digests.len() && bare(#[trigger] digests[i]).len() > 0 && !kept(
                keep,
                bare(digests[i]),
            ) ==> !(bare(digests[i]) + "-partial"@).is_prefix_of(h),
    ensures
        !deletes(removals(entries, digests, keep, installed_set(manifests)), e),
{
    let protected = installed_set(manifests);
    law_deletes_what_digests_let_go(entries, digests, keep, protected);
    let name = entries[e].name@;
    if some_digest_lets_go(name, digests, keep, protected) {
        let i = choose|i: int|
            0 <= i < digests.len() && removable(name, #[trigger] digests[i], keep, protected);
        let x = bare(digests[i]);
        if partial_prefix(x).is_prefix_of(name) {
            lemma_behind_stem(x + "-partial"@, h);
            assert(partial_prefix(x) == stem(x + "-partial"@));
        } else {
            lemma_behind_stem(x, h);
            lemma_behind_stem(h, x);
            assert(x == h);
        }
    }
}

/// A finished blob that a manifest on disk names is never deleted, whatever is
/// cancelled and kept, where its digest is hexadecimal.
pub proof fn law_installed_hex_blob_survives(
    entries: Seq<BlobEntry>,
    digests: Seq<Seq<char>>,
    keep: Seq<Seq<char>>,
    manifests: Seq<Option<Seq<char>>>,
    h: Seq<char>,
    e: int,
)
    requires
        entries.len() <= usize::MAX,
        installed(manifests, h),
        is_hex(h),
        0 <= e < entries.len(),
        entries[e].name@ == stem(h),
    ensures
        !deletes(removals(entries, digests, keep, installed_set(manifests)), e),
{
    assert forall|i: int| 0 <= i < digests.len() implies !(bare(#[trigger] digests[i])
        + "-partial"@).is_prefix_of(h) by {
        let x = bare(digests[i]);
        let longer = x + "-partial"@;
        reveal_strlit("-partial");
        if longer.is_prefix_of(h) {
            assert(longer[x.len() as int] == '-');
            assert(h[x.len() as int] == longer[x.len() as int]);
        }
    }
    law_installed_blob_survives(entries, digests, keep, manifests, h, e);
}

/// No file of a kept digest is deleted, finished or in part, unless another
/// cancelled digest lets the same file go.
pub proof fn law_kept_file_survives(
    entries: Seq<BlobEntry>,
    digests: Seq<Seq<char>>,
    keep: Seq<Seq<char>>,
    protected: Set<Seq<char>>,
    h: Seq<char>,
    e: int,
)
    requires
        entries.len() <= usize::MAX,
        kept(keep, h),
        0 <= e < entries.len(),
        belongs_to(entries[e].name@, h),
        forall|i: int|
            0 <= i < digests.len() && bare(#[trigger] digests[i]) != h ==> !removable(
                entries[e].name@,
                digests[i],
                keep,
                protected,
            ),
    ensures
        !deletes(removals(entries, digests, keep, protected), e),
{
    law_deletes_what_digests_let_go(entries, digests, keep, protected);
}

/// No file of a kept digest is deleted, finished or in part, where that digest
/// and the cancelled ones are hexadecimal.
pub proof fn law_kept_hex_file_survives(
    entries: Seq<BlobEntry>,
    digests: Seq<Seq<char>>,
    keep: Seq<Seq<char>>,
    protected: Set<Seq<char>>,
    h: Seq<char>,
    e: int,
)
    requires
        entries.len() <= usize::MAX,
        kept(keep, h),
        is_hex(h),
        forall|i: int| 0 <= i < digests.len() ==> is_hex(bare(#[trigger] digests[i])),
        0 <= e < entries.len(),
        belongs_to(entries[e].name@, h),
    ensures
        !deletes(removals(entries, digests, keep, protected), e),
{
    let name = entries[e].name@;
    assert forall|i: int|
        0 <= i < digests.len() && bare(#[trigger] digests[i]) != h implies !removable(
        name,
        digests[i],
        keep,
        protected,
    ) by {
        if removable(name, digests[i], keep, protected) {
            lemma_one_digest(name, bare(digests[i]), h);
        }
    }
    law_kept_file_survives(entries, digests, keep, protected, h, e);
}

/// A file belongs to one hexadecimal digest at most.
proof fn lemma_one_digest(name: Seq<char>, x: Seq<char>, y: Seq<char>)
    requires
        is_hex(x),
        is_hex(y),
        belongs_to(name, x),
        belongs_to(name, y),
    ensures
        x == y,
{
    reveal_strlit("sha256-");
    reveal_strlit("-partial");
    lemma_digest_in_name(name, x);
    lemma_digest_in_name(name, y);
    if x.len() < y.len() {
        let at = x.len() as int;
        assert(name[7 + at] == y[at]);
        assert(name[7 + at] == '-');
    } else if y.len() < x.len() {
        let at = y.len() as int;
        assert(name[7 + at] == x[at]);
        assert(name[7 + at] == '-');
    } else {
        assert forall|i: int| 0 <= i < x.len() implies x[i] == y[i] by {
            assert(name[7 + i] == x[i]);
            assert(name[7 + i] == y[i]);
        }
        assert(x =~= y);
    }
}

/// Where the digest of a file stands in its name, and what follows it.
proof fn lemma_digest_in_name(name: Seq<char>, h: Seq<char>)
    requires
        belongs_to(name, h),
    ensures
        name.len() >= 7 + h.len(),
        forall|i: int| 0 <= i < h.len() ==> name[7 + i] == #[trigger] h[i],
        name.len() > 7 + h.len() ==> name[7 + h.len() as int] == '-',
{
    reveal_strlit("sha256-");
    reveal_strlit("-partial");
    let whole = partial_prefix(h);
    if name != stem(h) {
        assert forall|i: int| 0 <= i < h.len() implies name[7 + i] == #[trigger] h[i] by {
            assert(whole[7 + i] == h[i]);
            assert(name.subrange(0, whole.len() as int)[7 + i] == whole[7 + i]);
        }
        let at = 7 + h.len() as int;
        assert(whole[at] == '-');
        assert(name.subrange(0, whole.len() as int)[at] == whole[at]);
    }
}

/// What begins the name of a finished blob behind its first part begins its
/// digest.
proof fn lemma_behind_stem(x: Seq<char>, h: Seq<char>)
    ensures
        stem(x).is_prefix_of(stem(h)) ==> x.is_prefix_of(h),
{
    reveal_strlit("sha256-");
    if stem(x).is_prefix_of(stem(h)) {
        assert forall|i: int| 0 <= i < x.len() implies x[i] == h.subrange(
            0,
            x.len() as int,
        )[i] by {
            assert(stem(x)[7 + i] == x[i]);
            assert(stem(h)[7 + i] == h[i]);
            assert(stem(h).subrange(0, stem(x).len() as int)[7 + i] == stem(h)[7 + i]);
        }
        assert(x =~= h.subrange(0, x.len() as int));
    }
}

/// The parts of a cancelled digest that nobody keeps are always deleted, even
/// where an installed model holds on to the finished blob.
pub proof fn law_unkept_part_goes(
    entries: Seq<BlobEntry>,
    digests: Seq<Seq<char>>,
    keep: Seq<Seq<char>>,
    protected: Set<Seq<char>>,
    i: int,
    e: int,
)
    requires
        entries.len() <= usize::MAX,
        0 <= i < digests.len(),
        bare(digests[i]).len() > 0,
        !kept(keep, bare(digests[i])),
        0 <= e < entries.len(),
        partial_prefix(bare(digests[i])).is_prefix_of(entries[e].name@),
    ensures
        deletes(removals(entries, digests, keep, protected), e),
{
    law_deletes_what_digests_let_go(entries, digests, keep, protected);
    assert(removable(entries[e].name@, digests[i], keep, protected));
}

/// Every file that is deleted is a blob of a cancelled digest, finished or in
/// part: nothing else goes.
pub proof fn law_nothing_else_goes(
    entries: Seq<BlobEntry>,
    digests: Seq<Seq<char>>,
    keep: Seq<Seq<char>>,
    protected: Set<Seq<char>>,
    e: int,
)
    requires
        entries.len() <= usize::MAX,
        0 <= e < entries.len(),
        deletes(removals(entries, digests, keep, protected), e),
    ensures
        exists|i: int|
            0 <= i < digests.len() && bare(#[trigger] digests[i]).len() > 0 && belongs_to(
                entries[e].name@,
                bare(digests[i]),
            ),
{
    law_deletes_what_digests_let_go(entries, digests, keep, protected);
    let name = entries[e].name@;
    let i = choose|i: int|
        0 <= i < digests.len() && removable(name, #[trigger] digests[i], keep, protected);
    assert(belongs_to(name, bare(digests[i])));
}

proof fn lemma_hex_is_plain(h: Seq<char>)
    requires
        is_hex(h),
    ensures
        !"sha256:"@.is_prefix_of(h),
        !"sha256-"@.is_prefix_of(h),
        h.len() > 0 ==> !is_white(h[0]) && !is_white(h.last()),
{
    reveal_strlit("sha256:");
    reveal_strlit("sha256-");
    if h.len() > 0 {
        assert(h[0] != 's');
        assert(!is_white(h.last()));
        if "sha256:"@.is_prefix_of(h) {
            assert("sha256:"@[0] == h[0]);
        }
        if "sha256-"@.is_prefix_of(h) {
            assert("sha256-"@[0] == h[0]);
        }
    }
}

/// A hexadecimal digest is the same digest with the name of the hash in front,
/// in either spelling, and without it.
pub proof fn law_bare_hex(h: Seq<char>)
    requires
        is_hex(h),
    ensures
        bare(h) == h,
        bare("sha256:"@ + h) == h,
        bare("sha256-"@ + h) == h,
{
    reveal_strlit("sha256:");
    reveal_strlit("sha256-");
    lemma_hex_is_plain(h);
    lemma_trim_nothing(h);
    let colon = "sha256:"@ + h;
    let dash = "sha256-"@ + h;
    assert(colon[0] == 's' && dash[0] == 's');
    assert(colon.last() == (if h.len() > 0 {
        h.last()
    } else {
        ':'
    }));
    assert(dash.last() == (if h.len() > 0 {
        h.last()
    } else {
        '-'
    }));
    lemma_trim_nothing(colon);
    lemma_trim_nothing(dash);
    assert(colon.skip(7) == h);
    assert(dash.skip(7) == h);
    assert("sha256:"@.is_prefix_of(colon)) by {
        assert(colon.subrange(0, 7) == "sha256:"@);
    }
    assert("sha256-"@.is_prefix_of(dash)) by {
        assert(dash.subrange(0, 7) == "sha256-"@);
    }
    assert(nameless(colon) == nameless(h));
    assert(nameless(dash) == nameless(h));
}

/// A bare digest begins with the name of the hash in neither spelling.
pub proof fn law_bare_has_no_hash_name(d: Seq<char>)
    ensures
        !"sha256:"@.is_prefix_of(bare(d)),
        !"sha256-"@.is_prefix_of(bare(d)),
{
    lemma_nameless(trim(d));
}

/// A bare digest that has no white space around it is left as it is.
pub proof fn law_bare_settles(d: Seq<char>)
    requires
        trim(bare(d)) == bare(d),
    ensures
        bare(bare(d)) == bare(d),
{
    lemma_nameless(trim(d));
}

/// Keeping or protecting more digests never deletes a file that was spared.
pub proof fn law_guards_only_spare(
    entries: Seq<BlobEntry>,
    digests: Seq<Seq<char>>,
    keep: Seq<Seq<char>>,
    more_keep: Seq<Seq<char>>,
    protected: Set<Seq<char>>,
    more_protected: Set<Seq<char>>,
    e: int,
)
    requires
        entries.len() <= usize::MAX,
        forall|h: Seq<char>| kept(keep, h) ==> kept(more_keep, h),
        protected.subset_of(more_protected),
        0 <= e < entries.len(),
        deletes(removals(entries, digests, more_keep, more_protected), e),
    ensures
        deletes(removals(entries, digests, keep, protected), e),
{
    law_deletes_what_digests_let_go(entries, digests, keep, protected);
    law_deletes_what_digests_let_go(entries, digests, more_keep, more_protected);
    let name = entries[e].name@;
    let i = choose|i: int|
        0 <= i < digests.len() && removable(name, #[trigger] digests[i], more_keep, more_protected);
    assert(removable(name, digests[i], keep, protected));
}

proof fn lemma_removals_for_spelling(
    entries: Seq<BlobEntry>,
    d: Seq<char>,
    respelt: Seq<char>,
    keep: Seq<Seq<char>>,
    respelt_keep: Seq<Seq<char>>,
    protected: Set<Seq<char>>,
)
    requires
        bare(d) == bare(respelt),
        forall|h: Seq<char>| kept(keep, h) <==> kept(respelt_keep, h),
    ensures
        removals_for(entries, d, keep, protected) == removals_for(
            entries,
            respelt,
            respelt_keep,
            protected,
        ),
    decreases entries.len(),
{
    if entries.len() > 0 {
        lemma_removals_for_spelling(
            entries.drop_last(),
            d,
            respelt,
            keep,
            respelt_keep,
            protected,
        );
    }
}

/// How digests are spelt makes no difference to what is deleted: only their bare
/// forms count, both of those cancelled and of those kept.
pub proof fn law_spelling_does_not_matter(
    entries: Seq<BlobEntry>,
    digests: Seq<Seq<char>>,
    respelt: Seq<Seq<char>>,
    keep: Seq<Seq<char>>,
    respelt_keep: Seq<Seq<char>>,
    protected: Set<Seq<char>>,
)
    requires
        digests.len() == respelt.len(),
        forall|i: int|
            0 <= i < digests.len() ==> bare(#[trigger] digests[i]) == bare(respelt[i]),
        forall|h: Seq<char>| kept(keep, h) <==> kept(respelt_keep, h),
    ensures
        removals(entries, digests, keep, protected) == removals(
            entries,
            respelt,
            respelt_keep,
            protected,
        ),
    decreases digests.len(),
{
    if digests.len() > 0 {
        let last = digests.len() - 1;
        assert(bare(digests[last]) == bare(respelt[last]));
        assert forall|i: int| 0 <= i < digests.drop_last().len() implies bare(
            #[trigger] digests.drop_last()[i],
        ) == bare(respelt.drop_last()[i]) by {
            assert(bare(digests[i]) == bare(respelt[i]));
        }
        law_spelling_does_not_matter(
            entries,
            digests.drop_last(),
            respelt.drop_last(),
            keep,
            respelt_keep,
            protected,
        );
        lemma_removals_for_spelling(
            entries,
            digests.last(),
            respelt.last(),
            keep,
            respelt_keep,
            protected,
        );
    }
}

/// Where a manifest could not be read, no finished blob is deleted: every file that
/// goes is a part of a cancelled digest that nobody keeps.
pub proof fn law_unread_manifest_spares_finished_blobs(
    entries: Seq<BlobEntry>,
    digests: Seq<Seq<char>>,
    keep: Seq<Seq<char>>,
    manifests: Seq<Option<Seq<char>>>,
    e: int,
)
    requires
        entries.len() <= usize::MAX,
        exists|i: int| 0 <= i < manifests.len() && #[trigger] manifests[i] is None,
        0 <= e < entries.len(),
        deletes(removals(entries, digests, keep, installed_set(manifests)), e),
    ensures
        exists|i: int|
            0 <= i < digests.len() && !kept(keep, bare(#[trigger] digests[i])) && partial_prefix(
                bare(digests[i]),
            ).is_prefix_of(entries[e].name@),
{
    let protected = installed_set(manifests);
    law_deletes_what_digests_let_go(entries, digests, keep, protected);
    let name = entries[e].name@;
    let i = choose|i: int|
        0 <= i < digests.len() && removable(name, #[trigger] digests[i], keep, protected);
    assert(installed(manifests, bare(digests[i])));
    assert(partial_prefix(bare(digests[i])).is_prefix_of(name));
}

/// Tells whether each digest of one list is in the other, once both are bare.
pub open spec fn same_digests(one: Seq<Seq<char>>, other: Seq<Seq<char>>) -> bool {
    forall|h: Seq<char>| kept(one, h) <==> kept(other, h)
}

/// Neither the order nor the repetition of the cancelled digests changes which
/// files are deleted.
pub proof fn law_order_and_repeats_do_not_matter(
    entries: Seq<BlobEntry>,
    one: Seq<Seq<char>>,
    other: Seq<Seq<char>>,
    keep: Seq<Seq<char>>,
    protected: Set<Seq<char>>,
    e: int,
)
    requires
        entries.len() <= usize::MAX,
        same_digests(one, other),
        0 <= e < entries.len(),
    ensures
        deletes(removals(entries, one, keep, protected), e) <==> deletes(
            removals(entries, other, keep, protected),
            e,
        ),
{
    law_deletes_what_digests_let_go(entries, one, keep, protected);
    law_deletes_what_digests_let_go(entries, other, keep, protected);
    let name = entries[e].name@;
    if some_digest_lets_go(name, one, keep, protected) {
        lemma_lets_go_as_set(name, one, other, keep, protected);
    }
    if some_digest_lets_go(name, other, keep, protected) {
        lemma_lets_go_as_set(name, other, one, keep, protected);
    }
}

proof fn lemma_lets_go_as_set(
    name: Seq<char>,
    one: Seq<Seq<char>>,
    other: Seq<Seq<char>>,
    keep: Seq<Seq<char>>,
    protected: Set<Seq<char>>,
)
    requires
        same_digests(one, other),
        some_digest_lets_go(name, one, keep, protected),
    ensures
        some_digest_lets_go(name, other, keep, protected),
{
    let i = choose|i: int|
        0 <= i < one.len() && removable(name, #[trigger] one[i], keep, protected);
    let h = bare(one[i]);
    assert(kept(one, h));
    assert(kept(other, h));
    let j = choose|j: int| 0 <= j < other.len() && bare(#[trigger] other[j]) == h;
    assert(removable(name, other[j], keep, protected));
}

/// Which deletions of a plan take place, where `can` tells which files can be
/// deleted: a file that is gone already cannot be deleted again.
pub open spec fn carried_out(plan: Seq<Removal>, can: spec_fn(int) -> bool) -> Seq<bool> {
    Seq::new(
        plan.len(),
        |k: int| can(plan[k].entry as int) && !deletes(plan.take(k), plan[k].entry as int),
    )
}

/// The bytes of those of the first `n` files of a listing that a plan deletes and
/// that can be deleted.
pub open spec fn bytes_of_deleted(
    entries: Seq<BlobEntry>,
    plan: Seq<Removal>,
    can: spec_fn(int) -> bool,
    n: nat,
) -> nat
    decreases n,
{
    if n == 0 {
        0
    } else {
        let e = n - 1;
        bytes_of_deleted(entries, plan, can, e as nat) + if deletes(plan, e) && can(e) {
            entries[e].bytes as nat
        } else {
            0
        }
    }
}

proof fn lemma_freed_prefix(plan: Seq<Removal>, a: Seq<bool>, b: Seq<bool>)
    requires
        plan.len() <= a.len(),
        plan.len() <= b.len(),
        forall|i: int| 0 <= i < plan.len() ==> a[i] == b[i],
    ensures
        freed(plan, a) == freed(plan, b),
    decreases plan.len(),
{
    if plan.len() > 0 {
        lemma_freed_prefix(plan.drop_last(), a, b);
    }
}

proof fn lemma_bytes_of_one_more(
    entries: Seq<BlobEntry>,
    plan: Seq<Removal>,
    can: spec_fn(int) -> bool,
    n: nat,
)
    requires
        plan.len() > 0,
        n <= entries.len(),
    ensures
        bytes_of_deleted(entries, plan, can, n) == bytes_of_deleted(
            entries,
            plan.drop_last(),
            can,
            n,
        ) + ({
            let e = plan.last().entry as int;
            if e < n && can(e) && !deletes(plan.drop_last(), e) {
                entries[e].bytes as nat
            } else {
                0
            }
        }),
    decreases n,
{
    if n > 0 {
        let e = n - 1;
        let head = plan.drop_last();
        lemma_bytes_of_one_more(entries, plan, can, e as nat);
        if deletes(head, e) {
            let k = choose|k: int| 0 <= k < head.len() && (#[trigger] head[k]).entry == e;
            assert(plan[k].entry == e);
        }
        if deletes(plan, e) {
            let k = choose|k: int| 0 <= k < plan.len() && (#[trigger] plan[k]).entry == e;
            if k < head.len() {
                assert(head[k].entry == e);
            }
        }
        if plan.last().entry == e {
            assert(plan[plan.len() - 1].entry == e);
        }
    }
}

/// The bytes freed are those of the files that are gone, each counted once,
/// however often the plan names it.
pub proof fn law_each_file_is_counted_once(
    entries: Seq<BlobEntry>,
    plan: Seq<Removal>,
    can: spec_fn(int) -> bool,
)
    requires
        forall|k: int|
            0 <= k < plan.len() ==> (#[trigger] plan[k]).entry < entries.len() && plan[k].bytes
                == entries[plan[k].entry as int].bytes,
    ensures
        freed(plan, carried_out(plan, can)) == bytes_of_deleted(
            entries,
            plan,
            can,
            entries.len(),
        ),
    decreases plan.len(),
{
    if plan.len() == 0 {
        lemma_nothing_deleted(entries, plan, can, entries.len());
    } else {
        let head = plan.drop_last();
        let done = carried_out(plan, can);
        let done_before = carried_out(head, can);
        assert forall|k: int| 0 <= k < head.len() implies (#[trigger] head[k]).entry
            < entries.len() && head[k].bytes == entries[head[k].entry as int].bytes by {
            assert(plan[k] == head[k]);
        }
        law_each_file_is_counted_once(entries, head, can);
        assert forall|i: int| 0 <= i < head.len() implies done[i] == done_before[i] by {
            assert(plan.take(i) == head.take(i));
        }
        lemma_freed_prefix(head, done, done_before);
        assert(plan.take(plan.len() - 1) == head);
        lemma_bytes_of_one_more(entries, plan, can, entries.len());
        assert(plan[plan.len() - 1] == plan.last());
    }
}

proof fn lemma_nothing_deleted(
    entries: Seq<BlobEntry>,
    plan: Seq<Removal>,
    can: spec_fn(int) -> bool,
    n: nat,
)
    requires
        plan.len() == 0,
    ensures
        bytes_of_deleted(entries, plan, can, n) == 0,
    decreases n,
{
    if n > 0 {
        lemma_nothing_deleted(entries, plan, can, (n - 1) as nat);
    }
}

proof fn lemma_same_bytes(
    entries: Seq<BlobEntry>,
    one: Seq<Removal>,
    other: Seq<Removal>,
    can: spec_fn(int) -> bool,
    n: nat,
)
    requires
        forall|e: int| 0 <= e < n ==> (#[trigger] deletes(one, e) <==> deletes(other, e)),
    ensures
        bytes_of_deleted(entries, one, can, n) == bytes_of_deleted(entries, other, can, n),
    decreases n,
{
    if n > 0 {
        let e = n - 1;
        assert(deletes(one, e) <==> deletes(other, e));
        lemma_same_bytes(entries, one, other, can, e as nat);
    }
}

/// Neither the order nor the repetition of the cancelled digests changes how many
/// bytes are freed.
pub proof fn law_order_and_repeats_free_the_same(
    entries: Seq<BlobEntry>,
    one: Seq<Seq<char>>,
    other: Seq<Seq<char>>,
    keep: Seq<Seq<char>>,
    protected: Set<Seq<char>>,
    can: spec_fn(int) -> bool,
)
    requires
        entries.len() <= usize::MAX,
        same_digests(one, other),
    ensures
        ({
            let a = removals(entries, one, keep, protected);
            let b = removals(entries, other, keep, protected);
            freed(a, carried_out(a, can)) == freed(b, carried_out(b, can))
        }),
{
    let a = removals(entries, one, keep, protected);
    let b = removals(entries, other, keep, protected);
    law_deletes_what_digests_let_go(entries, one, keep, protected);
    law_deletes_what_digests_let_go(entries, other, keep, protected);
    law_each_file_is_counted_once(entries, a, can);
    law_each_file_is_counted_once(entries, b, can);
    assert forall|e: int| 0 <= e < entries.len() implies (#[trigger] deletes(a, e) <==> deletes(
        b,
        e,
    )) by {
        law_order_and_repeats_do_not_matter(entries, one, other, keep, protected, e);
    }
    lemma_same_bytes(entries, a, b, can, entries.len());
}

/// A second run deletes nothing: where every file left is one that the first run
/// spared, there is nothing to delete.
pub proof fn law_a_second_run_deletes_nothing(
    entries: Seq<BlobEntry>,
    left: Seq<BlobEntry>,
    digests: Seq<Seq<char>>,
    keep: Seq<Seq<char>>,
    protected: Set<Seq<char>>,
)
    requires
        entries.len() <= usize::MAX,
        left.len() <= usize::MAX,
        forall|i: int|
            0 <= i < left.len() ==> exists|e: int|
                0 <= e < entries.len() && #[trigger] entries[e].name@ == (
                #[trigger] left[i]).name@ && !deletes(
                    removals(entries, digests, keep, protected),
                    e,
                ),
    ensures
        removals(left, digests, keep, protected).len() == 0,
{
    let again = removals(left, digests, keep, protected);
    law_deletes_what_digests_let_go(entries, digests, keep, protected);
    law_deletes_what_digests_let_go(left, digests, keep, protected);
    if again.len() > 0 {
        let i = again[0].entry as int;
        assert(deletes(again, i));
        assert(left[i].name@ == left[i].name@);
        let e = choose|e: int|
            0 <= e < entries.len() && #[trigger] entries[e].name@ == left[i].name@ && !deletes(
                removals(entries, digests, keep, protected),
                e,
            );
        assert(some_digest_lets_go(entries[e].name@, digests, keep, protected));
    }
}

/// White space around a digest makes no difference to its bare form.
pub proof fn law_bare_ignores_white_space_around(a: Seq<char>, d: Seq<char>, b: Seq<char>)
    requires
        forall|i: int| 0 <= i < a.len() ==> is_white(#[trigger] a[i]),
        forall|i: int| 0 <= i < b.len() ==> is_white(#[trigger] b[i]),
    ensures
        bare(a + d + b) == bare(d),
{
    law_trim_ignores_white_space_around(a, d, b);
}

/// The name of the hash in front is dropped in either spelling, and nothing else
/// is: a digest with no white space around it that begins with neither spelling is
/// bare, and white space behind the name stays.
pub proof fn law_bare_drops_the_name_of_the_hash(s: Seq<char>)
    requires
        s.len() > 0 ==> !is_white(s.last()),
    ensures
        s.len() == 0 || !is_white(s[0]) ==> bare("sha256:"@ + s) == bare(s),
        s.len() == 0 || !is_white(s[0]) ==> bare("sha256-"@ + s) == bare(s),
        s.len() > 0 && is_white(s[0]) ==> bare("sha256:"@ + s) == s,
        s.len() > 0 && is_white(s[0]) ==> bare("sha256-"@ + s) == s,
        (s.len() == 0 || !is_white(s[0])) && !"sha256:"@.is_prefix_of(s)
            && !"sha256-"@.is_prefix_of(s) ==> bare(s) == s,
{
    reveal_strlit("sha256:");
    reveal_strlit("sha256-");
    let colon = "sha256:"@ + s;
    let dash = "sha256-"@ + s;
    assert(colon.subrange(0, 7) == "sha256:"@);
    assert(dash.subrange(0, 7) == "sha256-"@);
    assert(colon.skip(7) == s && dash.skip(7) == s);
    assert(colon[0] == 's' && dash[0] == 's');
    assert(colon.last() == (if s.len() > 0 {
        s.last()
    } else {
        ':'
    }));
    assert(dash.last() == (if s.len() > 0 {
        s.last()
    } else {
        '-'
    }));
    lemma_trim_nothing(colon);
    lemma_trim_nothing(dash);
    assert(nameless(colon) == nameless(s) && nameless(dash) == nameless(s));
    if s.len() == 0 || !is_white(s[0]) {
        lemma_trim_nothing(s);
    } else {
        if "sha256:"@.is_prefix_of(s) {
            assert("sha256:"@[0] == s[0]);
        }
        if "sha256-"@.is_prefix_of(s) {
            assert("sha256-"@[0] == s[0]);
        }
    }
}

/// A file is deleted just where a cancelled digest that is not blank and that
/// nobody keeps names it: as one of its parts, or as its finished blob where no
/// installed model holds on to that. Each deletion counts the bytes of the file it
/// is for.
pub proof fn law_what_is_deleted(
    entries: Seq<BlobEntry>,
    digests: Seq<Seq<char>>,
    keep: Seq<Seq<char>>,
    protected: Set<Seq<char>>,
    e: int,
)
    requires
        entries.len() <= usize::MAX,
        0 <= e < entries.len(),
    ensures
        ({
            let plan = removals(entries, digests, keep, protected);
            let name = entries[e].name@;
            (exists|k: int| 0 <= k < plan.len() && (#[trigger] plan[k]).entry == e) <==> exists|i: int|
                0 <= i < digests.len() && ({
                    let h = bare(#[trigger] digests[i]);
                    &&& h.len() > 0
                    &&& forall|j: int| 0 <= j < keep.len() ==> bare(#[trigger] keep[j]) != h
                    &&& ("sha256-"@ + h + "-partial"@).is_prefix_of(name) || (name == "sha256-"@ + h
                        && !protected.contains(h))
                })
        }),
        forall|k: int|
            0 <= k < removals(entries, digests, keep, protected).len() ==> {
                let r = #[trigger] removals(entries, digests, keep, protected)[k];
                r.entry < entries.len() && r.bytes == entries[r.entry as int].bytes
            },
{
    law_deletes_what_digests_let_go(entries, digests, keep, protected);
    let plan = removals(entries, digests, keep, protected);
    let name = entries[e].name@;
    assert(deletes(plan, e) <==> some_digest_lets_go(name, digests, keep, protected));
    if some_digest_lets_go(name, digests, keep, protected) {
        let i = choose|i: int|
            0 <= i < digests.len() && removable(name, #[trigger] digests[i], keep, protected);
        let h = bare(digests[i]);
        assert forall|j: int| 0 <= j < keep.len() implies bare(#[trigger] keep[j]) != h by {
            if bare(keep[j]) == h {
                assert(kept(keep, h));
            }
        }
    }
    if exists|i: int|
        0 <= i < digests.len() && ({
            let h = bare(#[trigger] digests[i]);
            &&& h.len() > 0
            &&& forall|j: int| 0 <= j < keep.len() ==> bare(#[trigger] keep[j]) != h
            &&& ("sha256-"@ + h + "-partial"@).is_prefix_of(name) || (name == "sha256-"@ + h
                && !protected.contains(h))
        }) {
        let i = choose|i: int|
            0 <= i < digests.len() && ({
                let h = bare(#[trigger] digests[i]);
                &&& h.len() > 0
                &&& forall|j: int| 0 <= j < keep.len() ==> bare(#[trigger] keep[j]) != h
                &&& ("sha256-"@ + h + "-partial"@).is_prefix_of(name) || (name == "sha256-"@ + h
                    && !protected.contains(h))
            });
        assert(removable(name, digests[i], keep, protected));
    }
}

proof fn lemma_removals_join(
    entries: Seq<BlobEntry>,
    a: Seq<Seq<char>>,
    b: Seq<Seq<char>>,
    keep: Seq<Seq<char>>,
    protected: Set<Seq<char>>,
)
    ensures
        removals(entries, a + b, keep, protected) == removals(entries, a, keep, protected)
            + removals(entries, b, keep, protected),
    decreases b.len(),
{
    if b.len() == 0 {
        assert(a + b == a);
        assert(removals(entries, a, keep, protected) + removals(entries, b, keep, protected)
            == removals(entries, a, keep, protected));
    } else {
        lemma_removals_join(entries, a, b.drop_last(), keep, protected);
        assert((a + b).drop_last() == a + b.drop_last());
        assert((a + b).last() == b.last());
        assert(removals(entries, a + b, keep, protected) == removals(entries, a, keep, protected)
            + removals(entries, b, keep, protected));
    }
}

proof fn lemma_removals_for_ordered(
    entries: Seq<BlobEntry>,
    d: Seq<char>,
    keep: Seq<Seq<char>>,
    protected: Set<Seq<char>>,
)
    requires
        entries.len() <= usize::MAX,
    ensures
        ({
            let plan = removals_for(entries, d, keep, protected);
            &&& forall|k: int| 0 <= k < plan.len() ==> (#[trigger] plan[k]).entry < entries.len()
            &&& forall|j: int, k: int|
                0 <= j < k < plan.len() ==> (#[trigger] plan[j]).entry < (#[trigger] plan[k]).entry
        }),
    decreases entries.len(),
{
    if entries.len() > 0 {
        let before = removals_for(entries.drop_last(), d, keep, protected);
        let plan = removals_for(entries, d, keep, protected);
        lemma_removals_for_ordered(entries.drop_last(), d, keep, protected);
        assert forall|k: int| 0 <= k < plan.len() implies (#[trigger] plan[k]).entry
            < entries.len() by {
            if k < before.len() {
                assert(plan[k] == before[k]);
            }
        }
        assert forall|j: int, k: int| 0 <= j < k < plan.len() implies (#[trigger] plan[j]).entry < (
        #[trigger] plan[k]).entry by {
            assert(plan[j] == before[j]);
            if k < before.len() {
                assert(plan[k] == before[k]);
            }
        }
    }
}

/// The cancelled digests are gone through one after the other, and for each the
/// files in the order of the listing, none twice.
pub proof fn law_digests_are_gone_through_in_order(
    entries: Seq<BlobEntry>,
    a: Seq<Seq<char>>,
    d: Seq<char>,
    b: Seq<Seq<char>>,
    keep: Seq<Seq<char>>,
    protected: Set<Seq<char>>,
)
    requires
        entries.len() <= usize::MAX,
    ensures
        removals(entries, a + seq![d] + b, keep, protected) == removals(
            entries,
            a,
            keep,
            protected,
        ) + removals(entries, seq![d], keep, protected) + removals(entries, b, keep, protected),
        forall|j: int, k: int|
            #![trigger removals(entries, seq![d], keep, protected)[j], removals(
                entries,
                seq![d],
                keep,
                protected,
            )[k]]
            0 <= j < k < removals(entries, seq![d], keep, protected).len() ==> removals(
                entries,
                seq![d],
                keep,
                protected,
            )[j].entry < removals(entries, seq![d], keep, protected)[k].entry,
{
    lemma_removals_join(entries, a + seq![d], b, keep, protected);
    lemma_removals_join(entries, a, seq![d], keep, protected);
    lemma_removals_for_ordered(entries, d, keep, protected);
    let one = seq![d];
    assert(one.drop_last() == Seq::<Seq<char>>::empty());
    assert(removals(entries, one.drop_last(), keep, protected) == Seq::<Removal>::empty());
    assert(one.last() == d);
    assert(removals(entries, one, keep, protected) == removals_for(entries, d, keep, protected));
}

/// The digest of every layer of a manifest, at whatever place, is protected in its
/// bare form.
pub proof fn law_every_layer_is_protected(
    manifests: Seq<Option<Seq<char>>>,
    m: int,
    text: Seq<char>,
    doc: JsonTree,
    layers: Seq<JsonTree>,
    i: int,
    d: Seq<char>,
)
    requires
        0 <= m < manifests.len(),
        manifests[m] == Some(text),
        document_in_text(text) == Some(doc),
        doc.field("layers"@) == Some(JsonTree::Array(layers)),
        0 <= i < layers.len(),
        layers[i].field("digest"@) == Some(JsonTree::Text(d)),
    ensures
        installed_set(manifests).contains(bare(d)),
{
    law_strings_are_found_at_every_place(layers, "digest"@, d);
    assert(layers[i].field("digest"@) == Some(JsonTree::Text(d)));
    let named = named_digests(doc);
    let of_layers = text_fields(layers, "digest"@);
    let k = of_layers.index_of(d);
    let at = named.len() - of_layers.len() + k;
    assert(named[at] == d);
    lemma_named_is_installed(manifests, m, text, doc, at);
}

/// The digest of the configuration of a manifest is protected in its bare form.
pub proof fn law_every_configuration_is_protected(
    manifests: Seq<Option<Seq<char>>>,
    m: int,
    text: Seq<char>,
    doc: JsonTree,
    config: JsonTree,
    d: Seq<char>,
)
    requires
        0 <= m < manifests.len(),
        manifests[m] == Some(text),
        document_in_text(text) == Some(doc),
        doc.field("config"@) == Some(config),
        config.field("digest"@) == Some(JsonTree::Text(d)),
    ensures
        installed_set(manifests).contains(bare(d)),
{
    assert(named_digests(doc)[0] == d);
    lemma_named_is_installed(manifests, m, text, doc, 0);
}

proof fn lemma_named_is_installed(
    manifests: Seq<Option<Seq<char>>>,
    m: int,
    text: Seq<char>,
    doc: JsonTree,
    at: int,
)
    requires
        0 <= m < manifests.len(),
        manifests[m] == Some(text),
        document_in_text(text) == Some(doc),
        0 <= at < named_digests(doc).len(),
    ensures
        installed(manifests, bare(named_digests(doc)[at])),
{
    let names = named_digests(doc).map_values(|d: Seq<char>| bare(d));
    assert(names[at] == bare(named_digests(doc)[at]));
    assert(manifest_names(text, bare(named_digests(doc)[at])));
}

/// Where every manifest could be read, nothing is protected but the bare digests of
/// their configurations and layers.
pub proof fn law_nothing_else_is_protected(manifests: Seq<Option<Seq<char>>>, h: Seq<char>)
    requires
        forall|m: int| 0 <= m < manifests.len() ==> #[trigger] manifests[m] is Some,
        installed_set(manifests).contains(h),
    ensures
        exists|m: int, d: Seq<char>|
            #![trigger manifests[m], bare(d)]
            0 <= m < manifests.len() && bare(d) == h && document_in_text(manifests[m]->0) is Some
                && ({
                let doc = document_in_text(manifests[m]->0)->0;
                ||| doc.field("config"@) is Some && doc.field("config"@)->0.field("digest"@) == Some(
                    JsonTree::Text(d),
                )
                ||| doc.field("layers"@) is Some && doc.field("layers"@)->0 is Array && exists|i: int|
                    0 <= i < doc.field("layers"@)->0->Array_0.len() && (
                    #[trigger] doc.field("layers"@)->0->Array_0[i]).field("digest"@) == Some(
                        JsonTree::Text(d),
                    )
            }),
{
    let m = choose|m: int|
        0 <= m < manifests.len() && match #[trigger] manifests[m] {
            Some(text) => manifest_names(text, h),
            None => true,
        };
    let text = manifests[m]->0;
    assert(manifest_names(text, h));
    let doc = document_in_text(text)->0;
    let named = named_digests(doc);
    let names = named.map_values(|d: Seq<char>| bare(d));
    let k = names.index_of(h);
    assert(names[k] == bare(named[k]));
    let d = named[k];
    let layers = doc.array_field("layers"@);
    let of_layers = text_fields(layers, "digest"@);
    let head = named.len() - of_layers.len();
    if k >= head {
        assert(of_layers[k - head] == d);
        law_strings_are_found_at_every_place(layers, "digest"@, d);
    }
    assert(bare(d) == h);
}

/// A manifest names the digest of its configuration first, where it has one, and
/// then those of its layers, in order.
pub proof fn law_manifest_names_configuration_then_layers(doc: JsonTree)
    ensures
        ({
            let of_layers = match doc.field("layers"@) {
                Some(JsonTree::Array(layers)) => text_fields(layers, "digest"@),
                _ => Seq::empty(),
            };
            match doc.field("config"@) {
                Some(config) => match config.field("digest"@) {
                    Some(JsonTree::Text(d)) => named_digests(doc) == seq![d] + of_layers,
                    _ => named_digests(doc) == of_layers,
                },
                None => named_digests(doc) == of_layers,
            }
        }),
{
    assert(text_fields(Seq::empty(), "digest"@) == Seq::<Seq<char>>::empty());
}

/// No layer of an installed model loses its finished blob, whatever is cancelled
/// and kept and wherever in its manifest the layer stands, where its digest is
/// hexadecimal.
pub proof fn law_no_layer_of_an_installed_model_is_lost(
    entries: Seq<BlobEntry>,
    digests: Seq<Seq<char>>,
    keep: Seq<Seq<char>>,
    manifests: Seq<Option<Seq<char>>>,
    m: int,
    text: Seq<char>,
    doc: JsonTree,
    layers: Seq<JsonTree>,
    i: int,
    d: Seq<char>,
    k: int,
)
    requires
        entries.len() <= usize::MAX,
        0 <= m < manifests.len(),
        manifests[m] == Some(text),
        document_in_text(text) == Some(doc),
        doc.field("layers"@) == Some(JsonTree::Array(layers)),
        0 <= i < layers.len(),
        layers[i].field("digest"@) == Some(JsonTree::Text(d)),
        is_hex(bare(d)),
        0 <= k < removals(entries, digests, keep, installed_set(manifests)).len(),
    ensures
        entries[removals(entries, digests, keep, installed_set(manifests))[k].entry as int].name@
            != "sha256-"@ + bare(d),
{
    let plan = removals(entries, digests, keep, installed_set(manifests));
    law_every_layer_is_protected(manifests, m, text, doc, layers, i, d);
    law_deletes_what_digests_let_go(entries, digests, keep, installed_set(manifests));
    let e = plan[k].entry as int;
    if entries[e].name@ == "sha256-"@ + bare(d) {
        assert(deletes(plan, e));
        law_installed_hex_blob_survives(entries, digests, keep, manifests, bare(d), e);
    }
}

/// A manifest that could not be read protects every digest, and the others are told
/// apart by their texts.
pub proof fn law_manifests_stand_for_their_texts(manifests: Seq<Option<String>>, i: int)
    requires
        0 <= i < manifests.len(),
    ensures
        manifest_texts(manifests).len() == manifests.len(),
        match manifests[i] {
            Some(text) => manifest_texts(manifests)[i] == Some(text@),
            None => manifest_texts(manifests)[i] is None && forall|h: Seq<char>| #[trigger]
                installed_set(manifest_texts(manifests)).contains(h),
        },
{
    if manifests[i] is None {
        assert(manifest_texts(manifests)[i] is None);
        assert forall|h: Seq<char>| #[trigger]
            installed_set(manifest_texts(manifests)).contains(h) by {
            assert(installed(manifest_texts(manifests), h));
        }
    }
}

/// The bytes freed are those of the deletions that took place, each counted in
/// full; a deletion of which nothing is told did not take place.
pub proof fn law_freed_adds_up(
    plan: Seq<Removal>,
    removed: Seq<bool>,
    next: Removal,
    took_place: bool,
    more_plan: Seq<Removal>,
    more_removed: Seq<bool>,
)
    requires
        plan.len() == removed.len(),
    ensures
        freed(Seq::empty(), removed) == 0,
        freed(plan.push(next), removed.push(took_place)) == freed(plan, removed) + if took_place {
            next.bytes as nat
        } else {
            0
        },
        freed(plan, removed + more_removed) == freed(plan, removed),
        freed(plan + more_plan, removed) == freed(plan, removed),
    decreases more_plan.len(),
{
    assert(plan.push(next).drop_last() == plan);
    lemma_freed_prefix(plan, removed, removed.push(took_place));
    lemma_freed_prefix(plan, removed, removed + more_removed);
    if more_plan.len() > 0 {
        assert((plan + more_plan).drop_last() == plan + more_plan.drop_last());
        law_freed_adds_up(plan, removed, next, took_place, more_plan.drop_last(), more_removed);
    } else {
        assert(plan + more_plan == plan);
    }
}

/// Each regular file counts with all its bytes, wherever it stands in the listing,
/// and nothing else counts.
pub proof fn law_every_regular_file_takes_room(
    a: Seq<Option<FileStat>>,
    stat: Option<FileStat>,
    b: Seq<Option<FileStat>>,
)
    ensures
        occupied(Seq::empty()) == 0,
        occupied(a + seq![stat] + b) == occupied(a) + occupied(b) + if stat is Some
            && stat->0.is_file {
            stat->0.bytes as nat
        } else {
            0
        },
    decreases b.len(),
{
    let whole = a + seq![stat] + b;
    if b.len() > 0 {
        assert(whole.drop_last() == a + seq![stat] + b.drop_last());
        assert(whole.last() == b.last());
        law_every_regular_file_takes_room(a, stat, b.drop_last());
    } else {
        assert(whole.drop_last() == a);
        assert(whole.last() == stat);
    }
}

} // verus!
