//! The search-tree discipline of a bucket, and the lookup laws that
//! follow from it.
//!
//! A writer builds each bucket's collision tree so that, seen from any
//! node, every record in the left subtree compares greater and every
//! record in the right subtree compares less, ordering first by the
//! stored secondary hash and then by the key bytes. Under that
//! discipline, the walk a lookup takes ends in a hit exactly when some
//! record of the tree holds the key.

use vstd::prelude::*;

use crate::bytes::{Endian, Width};
use crate::record::{parse_record_space, ParseOut, RecModel};
use crate::{
    child_of, is_match, lex_less, lookup_walk, spec_secondary_hash, LookupEnd,
};

verus! {

/// A probe with hash `khash` and key `key` descends to the left child
/// of the record `m`.
pub open spec fn probe_left(m: RecModel, khash: u8, key: Seq<u8>) -> bool {
    khash > m.hash_value || (khash == m.hash_value && lex_less(m.key, key))
}

/// A probe with hash `khash` and key `key` descends to the right child
/// of the record `m`.
pub open spec fn probe_right(m: RecModel, khash: u8, key: Seq<u8>) -> bool {
    khash < m.hash_value || (khash == m.hash_value && lex_less(key, m.key))
}

/// Every record of the subtree rooted at the encoded offset `off`, the
/// root first.
pub open spec fn tree_nodes(
    s: Seq<u8>,
    w: Width,
    e: Endian,
    ap: u8,
    off: u64,
    fuel: nat,
) -> Seq<RecModel>
    decreases fuel,
{
    if off == 0 || fuel == 0 {
        Seq::empty()
    } else {
        match parse_record_space(s, (off << ap) as int, w, e) {
            ParseOut::Rec(m) => seq![m] + tree_nodes(s, w, e, ap, m.left, (fuel - 1) as nat)
                + tree_nodes(s, w, e, ap, m.right, (fuel - 1) as nat),
            _ => Seq::empty(),
        }
    }
}

/// The subtree rooted at `off` is a well-formed search tree: within the
/// step budget every reachable chain ends, every reachable position
/// holds a record, each record stores the secondary hash of its own key,
/// and both subtrees stand strictly on the proper sides of their root.
pub open spec fn tree_wf(s: Seq<u8>, w: Width, e: Endian, ap: u8, off: u64, fuel: nat) -> bool
    decreases fuel,
{
    if off == 0 {
        true
    } else if fuel == 0 {
        false
    } else {
        match parse_record_space(s, (off << ap) as int, w, e) {
            ParseOut::Rec(m) => {
                let left = tree_nodes(s, w, e, ap, m.left, (fuel - 1) as nat);
                let right = tree_nodes(s, w, e, ap, m.right, (fuel - 1) as nat);
                &&& m.hash_value == spec_secondary_hash(m.key)
                &&& (forall|i: int|
                    0 <= i < left.len() ==> probe_left(
                        m,
                        (#[trigger] left[i]).hash_value,
                        left[i].key,
                    ))
                &&& (forall|i: int|
                    0 <= i < right.len() ==> probe_right(
                        m,
                        (#[trigger] right[i]).hash_value,
                        right[i].key,
                    ))
                &&& tree_wf(s, w, e, ap, m.left, (fuel - 1) as nat)
                &&& tree_wf(s, w, e, ap, m.right, (fuel - 1) as nat)
            },
            _ => false,
        }
    }
}

/// Some record of the subtree holds `key`.
pub open spec fn tree_has_key(
    s: Seq<u8>,
    w: Width,
    e: Endian,
    ap: u8,
    off: u64,
    fuel: nat,
    key: Seq<u8>,
) -> bool {
    exists|i: int|
        0 <= i < tree_nodes(s, w, e, ap, off, fuel).len() && (#[trigger] tree_nodes(
            s,
            w,
            e,
            ap,
            off,
            fuel,
        )[i]).key == key
}

/// No byte sequence precedes itself.
pub proof fn lemma_lex_irreflexive(a: Seq<u8>)
    ensures
        !lex_less(a, a),
    decreases a.len(),
{
    if a.len() > 0 {
        lemma_lex_irreflexive(a.skip(1));
    }
}

/// The lexicographic order runs one way only.
pub proof fn lemma_lex_asymmetric(a: Seq<u8>, b: Seq<u8>)
    requires
        lex_less(a, b),
    ensures
        !lex_less(b, a),
    decreases b.len(),
{
    if a.len() > 0 && b.len() > 0 && a[0] == b[0] {
        lemma_lex_asymmetric(a.skip(1), b.skip(1));
    }
}

/// Two byte sequences that precede each other in neither direction are
/// equal.
pub proof fn lemma_lex_trichotomy(a: Seq<u8>, b: Seq<u8>)
    requires
        !lex_less(a, b),
        !lex_less(b, a),
    ensures
        a == b,
    decreases a.len() + b.len(),
{
    if a.len() > 0 && b.len() > 0 {
        assert(a[0] == b[0]);
        lemma_lex_trichotomy(a.skip(1), b.skip(1));
        assert(a =~= seq![a[0]] + a.skip(1));
        assert(b =~= seq![b[0]] + b.skip(1));
    } else {
        assert(a.len() == 0 && b.len() == 0);
        assert(a =~= b);
    }
}

/// In a well-formed subtree every record stores the secondary hash of
/// its own key.
pub proof fn lemma_tree_hash_consistent(
    s: Seq<u8>,
    w: Width,
    e: Endian,
    ap: u8,
    off: u64,
    fuel: nat,
)
    requires
        tree_wf(s, w, e, ap, off, fuel),
    ensures
        forall|i: int|
            0 <= i < tree_nodes(s, w, e, ap, off, fuel).len() ==> (#[trigger] tree_nodes(
                s,
                w,
                e,
                ap,
                off,
                fuel,
            )[i]).hash_value == spec_secondary_hash(tree_nodes(s, w, e, ap, off, fuel)[i].key),
    decreases fuel,
{
    if off != 0 && fuel != 0 {
        match parse_record_space(s, (off << ap) as int, w, e) {
            ParseOut::Rec(m) => {
                let left = tree_nodes(s, w, e, ap, m.left, (fuel - 1) as nat);
                let right = tree_nodes(s, w, e, ap, m.right, (fuel - 1) as nat);
                let all = tree_nodes(s, w, e, ap, off, fuel);
                lemma_tree_hash_consistent(s, w, e, ap, m.left, (fuel - 1) as nat);
                lemma_tree_hash_consistent(s, w, e, ap, m.right, (fuel - 1) as nat);
                assert forall|i: int| 0 <= i < all.len() implies (#[trigger] all[i]).hash_value
                    == spec_secondary_hash(all[i].key) by {
                    if i == 0 {
                        assert(all[0] == m);
                    } else if i <= left.len() {
                        assert(all[i] == left[i - 1]);
                    } else {
                        assert(all[i] == right[i - 1 - left.len()]);
                    }
                }
            },
            _ => {},
        }
    }
}

/// In a well-formed bucket tree, looking up a key that some record holds
/// ends in a hit, and the record the walk lands on holds the key.
#[verifier::rlimit(60)]
pub proof fn lemma_lookup_finds_present_key(
    s: Seq<u8>,
    w: Width,
    e: Endian,
    ap: u8,
    off: u64,
    key: Seq<u8>,
    fuel: nat,
)
    requires
        tree_wf(s, w, e, ap, off, fuel),
        tree_has_key(s, w, e, ap, off, fuel, key),
    ensures
        ({
            let walk = lookup_walk(s, w, e, ap, off, spec_secondary_hash(key), key, fuel);
            walk.1 == LookupEnd::Found && walk.0.len() >= 1 && walk.0.last().key == key
        }),
    decreases fuel,
{
    let khash = spec_secondary_hash(key);
    let all = tree_nodes(s, w, e, ap, off, fuel);
    let i = choose|i: int| 0 <= i < all.len() && (#[trigger] all[i]).key == key;
    assert(all.len() > 0);
    assert(off != 0 && fuel != 0);
    match parse_record_space(s, (off << ap) as int, w, e) {
        ParseOut::Rec(m) => {
            let left = tree_nodes(s, w, e, ap, m.left, (fuel - 1) as nat);
            let right = tree_nodes(s, w, e, ap, m.right, (fuel - 1) as nat);
            let n = all[i];
            lemma_tree_hash_consistent(s, w, e, ap, off, fuel);
            assert(n.hash_value == spec_secondary_hash(n.key) == khash);
            if is_match(m, khash, key) {
                let walk = lookup_walk(s, w, e, ap, off, khash, key, fuel);
                assert(walk.0 == seq![m] && walk.1 == LookupEnd::Found);
                assert(walk.0.last() == m);
            } else {
                if i == 0 {
                    // the root itself holds the key, so the walk would
                    // have matched it
                    assert(all[0] == m);
                    assert(m.key == key && m.hash_value == khash);
                    assert(is_match(m, khash, key));
                    assert(false);
                } else if i <= left.len() {
                    assert(all[i] == left[i - 1]);
                    assert(probe_left(m, n.hash_value, n.key));
                    assert(probe_left(m, khash, key));
                    assert(child_of(m, khash, key) == m.left);
                    assert(0 <= i - 1 < left.len() && left[i - 1].key == key);
                    assert(tree_has_key(s, w, e, ap, m.left, (fuel - 1) as nat, key));
                    lemma_lookup_finds_present_key(s, w, e, ap, m.left, key, (fuel - 1) as nat);
                    let sub = lookup_walk(s, w, e, ap, m.left, khash, key, (fuel - 1) as nat);
                    let walk = lookup_walk(s, w, e, ap, off, khash, key, fuel);
                    assert(walk.0 == seq![m] + sub.0 && walk.1 == sub.1);
                    assert(walk.0.last() == sub.0.last());
                } else {
                    assert(all[i] == right[i - 1 - left.len()]);
                    assert(probe_right(m, n.hash_value, n.key));
                    assert(probe_right(m, khash, key));
                    if khash == m.hash_value {
                        lemma_lex_asymmetric(key, m.key);
                    }
                    assert(child_of(m, khash, key) == m.right);
                    let j = i - 1 - left.len();
                    assert(0 <= j < right.len() && right[j].key == key);
                    assert(tree_has_key(s, w, e, ap, m.right, (fuel - 1) as nat, key));
                    lemma_lookup_finds_present_key(s, w, e, ap, m.right, key, (fuel - 1) as nat);
                    let sub = lookup_walk(s, w, e, ap, m.right, khash, key, (fuel - 1) as nat);
                    let walk = lookup_walk(s, w, e, ap, off, khash, key, fuel);
                    assert(walk.0 == seq![m] + sub.0 && walk.1 == sub.1);
                    assert(walk.0.last() == sub.0.last());
                }
            }
        },
        _ => {
            assert(false);
        },
    }
}

/// In a well-formed bucket tree, looking up a key that no record holds
/// ends at an empty chain: a clean miss.
pub proof fn lemma_lookup_misses_absent_key(
    s: Seq<u8>,
    w: Width,
    e: Endian,
    ap: u8,
    off: u64,
    key: Seq<u8>,
    fuel: nat,
)
    requires
        tree_wf(s, w, e, ap, off, fuel),
        !tree_has_key(s, w, e, ap, off, fuel, key),
    ensures
        lookup_walk(s, w, e, ap, off, spec_secondary_hash(key), key, fuel).1
            == LookupEnd::NotFound,
    decreases fuel,
{
    let khash = spec_secondary_hash(key);
    if off != 0 {
        assert(fuel != 0);
        match parse_record_space(s, (off << ap) as int, w, e) {
            ParseOut::Rec(m) => {
                let all = tree_nodes(s, w, e, ap, off, fuel);
                let left = tree_nodes(s, w, e, ap, m.left, (fuel - 1) as nat);
                let right = tree_nodes(s, w, e, ap, m.right, (fuel - 1) as nat);
                assert(all[0] == m);
                if is_match(m, khash, key) {
                    assert(all[0].key == key);
                    assert(false);
                }
                let child = child_of(m, khash, key);
                assert(child == m.left || child == m.right);
                if child == m.left {
                    assert forall|j: int| 0 <= j < left.len() implies (#[trigger] left[j]).key
                        != key by {
                        assert(all[j + 1] == left[j]);
                    }
                    assert(!tree_has_key(s, w, e, ap, m.left, (fuel - 1) as nat, key));
                    lemma_lookup_misses_absent_key(s, w, e, ap, m.left, key, (fuel - 1) as nat);
                } else {
                    assert forall|j: int| 0 <= j < right.len() implies (#[trigger] right[j]).key
                        != key by {
                        assert(all[j + 1 + left.len()] == right[j]);
                    }
                    assert(!tree_has_key(s, w, e, ap, m.right, (fuel - 1) as nat, key));
                    lemma_lookup_misses_absent_key(s, w, e, ap, m.right, key, (fuel - 1) as nat);
                }
            },
            _ => {
                assert(false);
            },
        }
    }
}

/// A walk that ends in a hit lands on a record of the tree it walked.
pub proof fn lemma_walk_found_in_tree(
    s: Seq<u8>,
    w: Width,
    e: Endian,
    ap: u8,
    off: u64,
    khash: u8,
    key: Seq<u8>,
    fuel: nat,
)
    ensures
        ({
            let walk = lookup_walk(s, w, e, ap, off, khash, key, fuel);
            walk.1 == LookupEnd::Found ==> walk.0.len() >= 1 && exists|i: int|
                0 <= i < tree_nodes(s, w, e, ap, off, fuel).len() && tree_nodes(
                    s,
                    w,
                    e,
                    ap,
                    off,
                    fuel,
                )[i] == walk.0.last()
        }),
    decreases fuel,
{
    let walk = lookup_walk(s, w, e, ap, off, khash, key, fuel);
    if off != 0 && fuel != 0 && walk.1 == LookupEnd::Found {
        match parse_record_space(s, (off << ap) as int, w, e) {
            ParseOut::Rec(m) => {
                let all = tree_nodes(s, w, e, ap, off, fuel);
                let left = tree_nodes(s, w, e, ap, m.left, (fuel - 1) as nat);
                let right = tree_nodes(s, w, e, ap, m.right, (fuel - 1) as nat);
                if is_match(m, khash, key) {
                    assert(all[0] == m && walk.0.last() == m);
                } else {
                    let child = child_of(m, khash, key);
                    lemma_walk_found_in_tree(s, w, e, ap, child, khash, key, (fuel - 1) as nat);
                    let sub = lookup_walk(s, w, e, ap, child, khash, key, (fuel - 1) as nat);
                    assert(walk.0 == seq![m] + sub.0 && walk.1 == sub.1);
                    assert(walk.0.last() == sub.0.last());
                    let j = choose|j: int|
                        0 <= j < tree_nodes(s, w, e, ap, child, (fuel - 1) as nat).len()
                            && #[trigger] tree_nodes(s, w, e, ap, child, (fuel - 1) as nat)[j]
                            == sub.0.last();
                    if child == m.left {
                        assert(all[j + 1] == left[j]);
                    } else {
                        assert(child == m.right);
                        assert(all[j + 1 + left.len()] == right[j]);
                    }
                }
            },
            _ => {},
        }
    }
}

/// In a well-formed bucket tree no two records hold the same key.
pub proof fn lemma_tree_keys_unique(s: Seq<u8>, w: Width, e: Endian, ap: u8, off: u64, fuel: nat)
    requires
        tree_wf(s, w, e, ap, off, fuel),
    ensures
        forall|i: int, j: int|
            0 <= i < j < tree_nodes(s, w, e, ap, off, fuel).len() ==> (#[trigger] tree_nodes(
                s,
                w,
                e,
                ap,
                off,
                fuel,
            )[i]).key != (#[trigger] tree_nodes(s, w, e, ap, off, fuel)[j]).key,
    decreases fuel,
{
    if off != 0 && fuel != 0 {
        match parse_record_space(s, (off << ap) as int, w, e) {
            ParseOut::Rec(m) => {
                let all = tree_nodes(s, w, e, ap, off, fuel);
                let left = tree_nodes(s, w, e, ap, m.left, (fuel - 1) as nat);
                let right = tree_nodes(s, w, e, ap, m.right, (fuel - 1) as nat);
                lemma_tree_keys_unique(s, w, e, ap, m.left, (fuel - 1) as nat);
                lemma_tree_keys_unique(s, w, e, ap, m.right, (fuel - 1) as nat);
                lemma_tree_hash_consistent(s, w, e, ap, m.left, (fuel - 1) as nat);
                lemma_tree_hash_consistent(s, w, e, ap, m.right, (fuel - 1) as nat);
                assert forall|i: int, j: int| 0 <= i < j < all.len() implies (#[trigger] all[i]).key
                    != (#[trigger] all[j]).key by {
                    if i == 0 {
                        // the root against a node of either subtree
                        assert(all[0] == m);
                        if j <= left.len() {
                            let n = left[j - 1];
                            assert(all[j] == n);
                            assert(probe_left(m, n.hash_value, n.key));
                            if n.key == m.key {
                                assert(n.hash_value == spec_secondary_hash(n.key));
                                assert(n.hash_value == m.hash_value);
                                lemma_lex_irreflexive(m.key);
                                assert(false);
                            }
                        } else {
                            let n = right[j - 1 - left.len()];
                            assert(all[j] == n);
                            assert(probe_right(m, n.hash_value, n.key));
                            if n.key == m.key {
                                assert(n.hash_value == spec_secondary_hash(n.key));
                                assert(n.hash_value == m.hash_value);
                                lemma_lex_irreflexive(m.key);
                                assert(false);
                            }
                        }
                    } else if j <= left.len() {
                        // both in the left subtree
                        assert(all[i] == left[i - 1] && all[j] == left[j - 1]);
                    } else if i > left.len() {
                        // both in the right subtree
                        assert(all[i] == right[i - 1 - left.len()] && all[j] == right[j - 1
                            - left.len()]);
                    } else {
                        // one in each subtree: they sit on strictly
                        // opposite sides of the root
                        let n = left[i - 1];
                        let p = right[j - 1 - left.len()];
                        assert(all[i] == n && all[j] == p);
                        assert(probe_left(m, n.hash_value, n.key));
                        assert(probe_right(m, p.hash_value, p.key));
                        if n.key == p.key {
                            assert(n.hash_value == spec_secondary_hash(n.key));
                            assert(p.hash_value == spec_secondary_hash(p.key));
                            assert(n.hash_value == p.hash_value);
                            assert(n.hash_value == m.hash_value);
                            assert(lex_less(m.key, n.key) && lex_less(n.key, m.key));
                            lemma_lex_asymmetric(m.key, n.key);
                            assert(false);
                        }
                    }
                }
            },
            _ => {},
        }
    }
}

/// The lookup law over one bucket: under the writer's search-tree
/// discipline, the walk for a key ends in a hit exactly when some record
/// of the tree holds the key, and on a hit it lands on a record holding
/// the key.
pub proof fn lemma_lookup_correct(
    s: Seq<u8>,
    w: Width,
    e: Endian,
    ap: u8,
    off: u64,
    key: Seq<u8>,
    fuel: nat,
)
    requires
        tree_wf(s, w, e, ap, off, fuel),
    ensures
        ({
            let walk = lookup_walk(s, w, e, ap, off, spec_secondary_hash(key), key, fuel);
            let nodes = tree_nodes(s, w, e, ap, off, fuel);
            &&& (walk.1 == LookupEnd::Found <==> tree_has_key(s, w, e, ap, off, fuel, key))
            &&& (walk.1 == LookupEnd::Found || walk.1 == LookupEnd::NotFound)
            &&& (walk.1 == LookupEnd::Found ==> walk.0.len() >= 1 && walk.0.last().key == key)
            &&& (walk.1 == LookupEnd::Found ==> forall|i: int|
                0 <= i < nodes.len() && (#[trigger] nodes[i]).key == key ==> nodes[i]
                    == walk.0.last())
        }),
{
    let khash = spec_secondary_hash(key);
    let walk = lookup_walk(s, w, e, ap, off, khash, key, fuel);
    let nodes = tree_nodes(s, w, e, ap, off, fuel);
    if tree_has_key(s, w, e, ap, off, fuel, key) {
        lemma_lookup_finds_present_key(s, w, e, ap, off, key, fuel);
        lemma_walk_found_in_tree(s, w, e, ap, off, khash, key, fuel);
        lemma_tree_keys_unique(s, w, e, ap, off, fuel);
        let i0 = choose|i0: int| 0 <= i0 < nodes.len() && nodes[i0] == walk.0.last();
        assert forall|i: int| 0 <= i < nodes.len() && (#[trigger] nodes[i]).key == key implies
            nodes[i] == walk.0.last() by {
            if i != i0 {
                assert(nodes[i].key != nodes[i0].key);
                assert(nodes[i0].key == key);
                assert(false);
            }
        }
    } else {
        lemma_lookup_misses_absent_key(s, w, e, ap, off, key, fuel);
    }
}

/// The lookup law over a whole reader: when the bucket tree a key hashes
/// into follows the writer's discipline, the walk behind `get` hits
/// exactly the keys stored in that tree, and on a hit it lands on a
/// record holding the key.
pub proof fn lemma_reader_lookup_correct(db: crate::TCHDB, kb: Seq<u8>)
    requires
        db.wf(),
        tree_wf(
            db.reader@,
            db.width,
            db.endian,
            db.header.alignment_power,
            db.spec_bucket_root(db.spec_key_idx(kb)),
            db.walk_fuel(),
        ),
    ensures
        ({
            let walk = db.spec_lookup(kb);
            let nodes = tree_nodes(
                db.reader@,
                db.width,
                db.endian,
                db.header.alignment_power,
                db.spec_bucket_root(db.spec_key_idx(kb)),
                db.walk_fuel(),
            );
            &&& (walk.1 == LookupEnd::Found <==> tree_has_key(
                db.reader@,
                db.width,
                db.endian,
                db.header.alignment_power,
                db.spec_bucket_root(db.spec_key_idx(kb)),
                db.walk_fuel(),
                kb,
            ))
            &&& (walk.1 == LookupEnd::Found || walk.1 == LookupEnd::NotFound)
            &&& (walk.1 == LookupEnd::Found ==> walk.0.len() >= 1 && walk.0.last().key == kb)
            &&& (walk.1 == LookupEnd::Found ==> forall|i: int|
                0 <= i < nodes.len() && (#[trigger] nodes[i]).key == kb ==> nodes[i]
                    == walk.0.last())
        }),
{
    lemma_lookup_correct(
        db.reader@,
        db.width,
        db.endian,
        db.header.alignment_power,
        db.spec_bucket_root(db.spec_key_idx(kb)),
        kb,
        db.walk_fuel(),
    );
}

/// The round-trip law for one record: a record that stands in the
/// well-formed tree of its own key's bucket is exactly the record a
/// lookup of that key lands on.
pub proof fn lemma_tree_record_round_trips(db: crate::TCHDB, n: RecModel)
    requires
        db.wf(),
        tree_wf(
            db.reader@,
            db.width,
            db.endian,
            db.header.alignment_power,
            db.spec_bucket_root(db.spec_key_idx(n.key)),
            db.walk_fuel(),
        ),
        exists|i: int|
            0 <= i < tree_nodes(
                db.reader@,
                db.width,
                db.endian,
                db.header.alignment_power,
                db.spec_bucket_root(db.spec_key_idx(n.key)),
                db.walk_fuel(),
            ).len() && #[trigger] tree_nodes(
                db.reader@,
                db.width,
                db.endian,
                db.header.alignment_power,
                db.spec_bucket_root(db.spec_key_idx(n.key)),
                db.walk_fuel(),
            )[i] == n,
    ensures
        db.spec_lookup(n.key).1 == LookupEnd::Found,
        db.spec_lookup(n.key).0.last() == n,
{
    let nodes = tree_nodes(
        db.reader@,
        db.width,
        db.endian,
        db.header.alignment_power,
        db.spec_bucket_root(db.spec_key_idx(n.key)),
        db.walk_fuel(),
    );
    let i = choose|i: int| 0 <= i < nodes.len() && #[trigger] nodes[i] == n;
    assert(nodes[i].key == n.key);
    assert(tree_has_key(
        db.reader@,
        db.width,
        db.endian,
        db.header.alignment_power,
        db.spec_bucket_root(db.spec_key_idx(n.key)),
        db.walk_fuel(),
        n.key,
    ));
    lemma_reader_lookup_correct(db, n.key);
}

/// The dump law over one bucket: a traversal that completes yields
/// exactly the records of the bucket's tree, only rearranged by the
/// right-node-left visiting order.
pub proof fn lemma_traverse_yields_tree_nodes(
    s: Seq<u8>,
    w: Width,
    e: Endian,
    ap: u8,
    off: u64,
    fuel: nat,
)
    ensures
        match crate::traverse_walk(s, w, e, ap, off, fuel) {
            crate::TraverseOut::Done(ms) => ms.to_multiset() == tree_nodes(
                s,
                w,
                e,
                ap,
                off,
                fuel,
            ).to_multiset(),
            _ => true,
        },
    decreases fuel,
{
    broadcast use vstd::seq_lib::lemma_multiset_commutative;

    if off != 0 && fuel != 0 {
        match parse_record_space(s, (off << ap) as int, w, e) {
            ParseOut::Rec(m) => {
                lemma_traverse_yields_tree_nodes(s, w, e, ap, m.right, (fuel - 1) as nat);
                lemma_traverse_yields_tree_nodes(s, w, e, ap, m.left, (fuel - 1) as nat);
                match crate::traverse_walk(s, w, e, ap, off, fuel) {
                    crate::TraverseOut::Done(ms) => {
                        let rs = (match crate::traverse_walk(s, w, e, ap, m.right, (fuel - 1) as nat) {
                            crate::TraverseOut::Done(v) => v,
                            _ => arbitrary(),
                        });
                        let ls = (match crate::traverse_walk(s, w, e, ap, m.left, (fuel - 1) as nat) {
                            crate::TraverseOut::Done(v) => v,
                            _ => arbitrary(),
                        });
                        let left = tree_nodes(s, w, e, ap, m.left, (fuel - 1) as nat);
                        let right = tree_nodes(s, w, e, ap, m.right, (fuel - 1) as nat);
                        assert(ms == rs + seq![m] + ls);
                        assert((rs + seq![m] + ls).to_multiset() =~= rs.to_multiset().add(
                            seq![m].to_multiset().add(ls.to_multiset()),
                        )) by {
                            vstd::seq_lib::lemma_multiset_commutative(rs + seq![m], ls);
                            vstd::seq_lib::lemma_multiset_commutative(rs, seq![m]);
                        }
                        assert((seq![m] + left + right).to_multiset() =~= seq![m].to_multiset()
                            .add(left.to_multiset().add(right.to_multiset()))) by {
                            vstd::seq_lib::lemma_multiset_commutative(seq![m] + left, right);
                            vstd::seq_lib::lemma_multiset_commutative(seq![m], left);
                        }
                        assert(ms.to_multiset() =~= tree_nodes(s, w, e, ap, off, fuel)
                            .to_multiset());
                    },
                    _ => {},
                }
            },
            _ => {},
        }
    }
}

} // verus!
