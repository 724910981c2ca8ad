//! The packed record formats a graph layer stores in the tables: field
//! and type identifiers, the per-node key listing, and the node record
//! that maps field identifiers to table keys.

use crate::codec::{le_at, le_bytes, lemma_pow256_values, push_le, read_le_vec};
use vstd::prelude::*;

verus! {

/// Identifier of one field of a record type.
#[derive(PartialEq, Eq, Structural, Hash, Clone, Copy, Debug)]
pub struct NodeElementHash {
    pub hash: usize,
}

/// Identifier of a record type.
#[derive(PartialEq, Eq, Structural, Hash, Clone, Copy, Debug)]
pub struct NodeHash {
    pub hash: usize,
}

impl NodeElementHash {
    /// The eight little-endian bytes of the identifier.
    pub fn to_binary(&self) -> (r: Vec<u8>)
        ensures
            r@ == le_bytes(self.hash as int, 8),
    {
        proof {
            lemma_pow256_values();
        }
        let mut out: Vec<u8> = Vec::new();
        push_le(&mut out, self.hash as u64, 8);
        out
    }

    /// Decodes an identifier from the first eight bytes.
    pub fn from_binary(d: Vec<u8>) -> (r: Self)
        requires
            d@.len() >= 8,
            le_at(d@, 0, 8) <= usize::MAX,
        ensures
            r.hash as int == le_at(d@, 0, 8),
    {
        let v = read_le_vec(&d, 0, 8);
        NodeElementHash { hash: v as usize }
    }
}

impl NodeHash {
    /// The eight little-endian bytes of the identifier.
    pub fn to_binary(&self) -> (r: Vec<u8>)
        ensures
            r@ == le_bytes(self.hash as int, 8),
    {
        proof {
            lemma_pow256_values();
        }
        let mut out: Vec<u8> = Vec::new();
        push_le(&mut out, self.hash as u64, 8);
        out
    }

    /// Decodes an identifier from the first eight bytes.
    pub fn from_binary(d: Vec<u8>) -> (r: Self)
        requires
            d@.len() >= 8,
            le_at(d@, 0, 8) <= usize::MAX,
        ensures
            r.hash as int == le_at(d@, 0, 8),
    {
        let v = read_le_vec(&d, 0, 8);
        NodeHash { hash: v as usize }
    }
}

/// The packed bytes of a sequence of (identifier, key) pairs: sixteen
/// little-endian bytes per pair.
pub open spec fn pairs_bytes(ps: Seq<(int, int)>) -> Seq<u8>
    decreases ps.len(),
{
    if ps.len() == 0 {
        Seq::empty()
    } else {
        le_bytes(ps[0].0, 8) + le_bytes(ps[0].1, 8) + pairs_bytes(ps.drop_first())
    }
}

proof fn lemma_pairs_bytes_push(ps: Seq<(int, int)>, p: (int, int))
    ensures
        pairs_bytes(ps.push(p)) == pairs_bytes(ps) + le_bytes(p.0, 8) + le_bytes(p.1, 8),
    decreases ps.len(),
{
    if ps.len() == 0 {
        assert(ps.push(p).drop_first() =~= ps);
        assert(pairs_bytes(ps.push(p)) == le_bytes(p.0, 8) + le_bytes(p.1, 8) + pairs_bytes(ps));
        assert(pairs_bytes(ps.push(p)) =~= pairs_bytes(ps) + le_bytes(p.0, 8) + le_bytes(p.1, 8));
    } else {
        assert(ps.push(p).drop_first() =~= ps.drop_first().push(p));
        lemma_pairs_bytes_push(ps.drop_first(), p);
        assert(pairs_bytes(ps.push(p)) == le_bytes(ps[0].0, 8) + le_bytes(ps[0].1, 8)
            + pairs_bytes(ps.drop_first().push(p)));
        assert(pairs_bytes(ps.push(p)) =~= pairs_bytes(ps) + le_bytes(p.0, 8) + le_bytes(p.1, 8));
    }
}

proof fn lemma_pairs_bytes_len(ps: Seq<(int, int)>)
    ensures
        pairs_bytes(ps).len() == 16 * ps.len(),
    decreases ps.len(),
{
    if ps.len() > 0 {
        lemma_pairs_bytes_len(ps.drop_first());
    }
}

/// The full encoding of a node record: the count and pairs of the
/// fixed-width fields, then the count and pairs of the variable-width
/// fields.
pub open spec fn node_storage_bytes(s1: Seq<(int, int)>, s2: Seq<(int, int)>) -> Seq<u8> {
    le_bytes(s1.len() as int, 8) + pairs_bytes(s1) + le_bytes(s2.len() as int, 8) + pairs_bytes(s2)
}

/// A node record: for every fixed-width field its table key, for every
/// variable-width field its store key, each under the field's identifier.
#[derive(Debug, Clone)]
pub struct NodeStorage {
    pub node_static_sized_keys: Vec<(NodeElementHash, crate::table::Key)>,
    pub node_dynamic_sized_keys: Vec<(NodeElementHash, crate::variable_storage::Key)>,
}

impl NodeStorage {
    /// The fixed-width field pairs as mathematical values.
    pub open spec fn static_pairs(&self) -> Seq<(int, int)> {
        Seq::new(
            self.node_static_sized_keys@.len(),
            |i: int|
                (
                    self.node_static_sized_keys@[i].0.hash as int,
                    self.node_static_sized_keys@[i].1.index as int,
                ),
        )
    }

    /// The variable-width field pairs as mathematical values.
    pub open spec fn dynamic_pairs(&self) -> Seq<(int, int)> {
        Seq::new(
            self.node_dynamic_sized_keys@.len(),
            |i: int|
                (
                    self.node_dynamic_sized_keys@[i].0.hash as int,
                    self.node_dynamic_sized_keys@[i].1.index as int,
                ),
        )
    }

    /// Serialises the record into its packed byte form.
    pub fn to_binary(&self) -> (r: Vec<u8>)
        requires
            16 + 16 * self.node_static_sized_keys@.len() + 16
                * self.node_dynamic_sized_keys@.len() <= usize::MAX,
        ensures
            r@ == node_storage_bytes(self.static_pairs(), self.dynamic_pairs()),
    {
        proof {
            lemma_pow256_values();
        }
        let mut buffer: Vec<u8> = Vec::new();
        push_le(&mut buffer, self.node_static_sized_keys.len() as u64, 8);
        let mut i: usize = 0;
        while i < self.node_static_sized_keys.len()
            invariant
                i <= self.node_static_sized_keys@.len(),
                16 + 16 * self.node_static_sized_keys@.len() + 16
                    * self.node_dynamic_sized_keys@.len() <= usize::MAX,
                buffer@.len() == 8 + 16 * i,
                buffer@ == le_bytes(self.static_pairs().len() as int, 8) + pairs_bytes(
                    self.static_pairs().take(i as int),
                ),
            decreases self.node_static_sized_keys@.len() - i,
        {
            proof {
                lemma_pow256_values();
                assert(self.static_pairs().take(i + 1) =~= self.static_pairs().take(
                    i as int,
                ).push(self.static_pairs()[i as int]));
                lemma_pairs_bytes_push(
                    self.static_pairs().take(i as int),
                    self.static_pairs()[i as int],
                );
                assert(16 * (i as int) + 16 <= 16 * self.node_static_sized_keys@.len())
                    by (nonlinear_arith)
                    requires
                        (i as int) + 1 <= self.node_static_sized_keys@.len(),
                ;
                assert(0 <= 16 * self.node_dynamic_sized_keys@.len()) by (nonlinear_arith);
            }
            let hash = self.node_static_sized_keys[i].0.hash;
            let key = self.node_static_sized_keys[i].1.index;
            push_le(&mut buffer, hash as u64, 8);
            push_le(&mut buffer, key as u64, 8);
            proof {
                assert(buffer@ =~= le_bytes(self.static_pairs().len() as int, 8) + pairs_bytes(
                    self.static_pairs().take(i + 1),
                ));
            }
            i = i + 1;
        }
        proof {
            assert(self.static_pairs().take(self.static_pairs().len() as int)
                =~= self.static_pairs());
            lemma_pairs_bytes_len(self.static_pairs());
            assert(0 <= 16 * self.node_dynamic_sized_keys@.len()) by (nonlinear_arith);
        }
        push_le(&mut buffer, self.node_dynamic_sized_keys.len() as u64, 8);
        let mut j: usize = 0;
        while j < self.node_dynamic_sized_keys.len()
            invariant
                j <= self.node_dynamic_sized_keys@.len(),
                16 + 16 * self.node_static_sized_keys@.len() + 16
                    * self.node_dynamic_sized_keys@.len() <= usize::MAX,
                buffer@.len() == 16 + 16 * self.node_static_sized_keys@.len() + 16 * j,
                buffer@ == le_bytes(self.static_pairs().len() as int, 8) + pairs_bytes(
                    self.static_pairs(),
                ) + le_bytes(self.dynamic_pairs().len() as int, 8) + pairs_bytes(
                    self.dynamic_pairs().take(j as int),
                ),
            decreases self.node_dynamic_sized_keys@.len() - j,
        {
            proof {
                lemma_pow256_values();
                assert(self.dynamic_pairs().take(j + 1) =~= self.dynamic_pairs().take(
                    j as int,
                ).push(self.dynamic_pairs()[j as int]));
                lemma_pairs_bytes_push(
                    self.dynamic_pairs().take(j as int),
                    self.dynamic_pairs()[j as int],
                );
                assert(16 * (j as int) + 16 <= 16 * self.node_dynamic_sized_keys@.len())
                    by (nonlinear_arith)
                    requires
                        (j as int) + 1 <= self.node_dynamic_sized_keys@.len(),
                ;
            }
            let hash = self.node_dynamic_sized_keys[j].0.hash;
            let key = self.node_dynamic_sized_keys[j].1.index;
            push_le(&mut buffer, hash as u64, 8);
            push_le(&mut buffer, key as u64, 8);
            proof {
                assert(buffer@ =~= le_bytes(self.static_pairs().len() as int, 8) + pairs_bytes(
                    self.static_pairs(),
                ) + le_bytes(self.dynamic_pairs().len() as int, 8) + pairs_bytes(
                    self.dynamic_pairs().take(j + 1),
                ));
            }
            j = j + 1;
        }
        proof {
            assert(self.dynamic_pairs().take(self.dynamic_pairs().len() as int)
                =~= self.dynamic_pairs());
        }
        buffer
    }

    /// Parses a record from its packed byte form.
    pub fn from_binary(d: Vec<u8>) -> (r: Self)
        requires
            valid_node_storage(d@),
        ensures
            r.static_pairs().len() == le_at(d@, 0, 8),
            forall|i: int|
                0 <= i < r.static_pairs().len() ==> #[trigger] r.static_pairs()[i] == (
                le_at(d@, 8 + 16 * i, 8),
                le_at(d@, 8 + 16 * i + 8, 8),
            ),
            r.dynamic_pairs().len() == le_at(d@, 8 + 16 * le_at(d@, 0, 8), 8),
            forall|i: int|
                0 <= i < r.dynamic_pairs().len() ==> #[trigger] r.dynamic_pairs()[i] == (
                le_at(d@, 16 + 16 * le_at(d@, 0, 8) + 16 * i, 8),
                le_at(d@, 16 + 16 * le_at(d@, 0, 8) + 16 * i + 8, 8),
            ),
    {
        let dl = d.len();
        let n1_64 = read_le_vec(&d, 0, 8);
        let ghost n1g = le_at(d@, 0, 8);
        let n1 = n1_64 as usize;
        let mut stat: Vec<(NodeElementHash, crate::table::Key)> = Vec::new();
        let mut i: usize = 0;
        while i < n1
            invariant
                valid_node_storage(d@),
                dl == d@.len(),
                n1 as int == n1g == le_at(d@, 0, 8),
                i <= n1,
                stat@.len() == i,
                forall|t: int|
                    0 <= t < i ==> #[trigger] stat@[t].0.hash as int == le_at(d@, 8 + 16 * t, 8)
                        && stat@[t].1.index as int == le_at(d@, 8 + 16 * t + 8, 8),
            decreases n1 - i,
        {
            proof {
                assert(16 * (i as int) + 16 <= 16 * n1g) by (nonlinear_arith)
                    requires
                        (i as int) + 1 <= n1g,
                ;
                assert(0 <= 16 * (i as int)) by (nonlinear_arith)
                    requires
                        0 <= i,
                ;
            }
            let hash = read_le_vec(&d, 8 + 16 * i, 8);
            let key = read_le_vec(&d, 8 + 16 * i + 8, 8);
            stat.push(
                (NodeElementHash { hash: hash as usize }, crate::table::Key { index: key as usize }),
            );
            i = i + 1;
        }
        proof {
            assert(0 <= 16 * n1g) by (nonlinear_arith)
                requires
                    0 <= n1g,
            ;
        }
        let n2_64 = read_le_vec(&d, 8 + 16 * n1, 8);
        let ghost n2g = le_at(d@, 8 + 16 * n1g, 8);
        let n2 = n2_64 as usize;
        let mut dynv: Vec<(NodeElementHash, crate::variable_storage::Key)> = Vec::new();
        let mut j: usize = 0;
        while j < n2
            invariant
                valid_node_storage(d@),
                dl == d@.len(),
                n1 as int == n1g == le_at(d@, 0, 8),
                n2 as int == n2g == le_at(d@, 8 + 16 * n1g, 8),
                j <= n2,
                dynv@.len() == j,
                forall|t: int|
                    0 <= t < j ==> #[trigger] dynv@[t].0.hash as int == le_at(
                        d@,
                        16 + 16 * n1g + 16 * t,
                        8,
                    ) && dynv@[t].1.index as int == le_at(d@, 16 + 16 * n1g + 16 * t + 8, 8),
            decreases n2 - j,
        {
            proof {
                assert(16 * (j as int) + 16 <= 16 * n2g) by (nonlinear_arith)
                    requires
                        (j as int) + 1 <= n2g,
                ;
                assert(0 <= 16 * (j as int)) by (nonlinear_arith)
                    requires
                        0 <= j,
                ;
                assert(0 <= 16 * n1g) by (nonlinear_arith)
                    requires
                        0 <= n1g,
                ;
            }
            let hash = read_le_vec(&d, 16 + 16 * n1 + 16 * j, 8);
            let key = read_le_vec(&d, 16 + 16 * n1 + 16 * j + 8, 8);
            dynv.push(
                (
                    NodeElementHash { hash: hash as usize },
                    crate::variable_storage::Key { index: key as usize },
                ),
            );
            j = j + 1;
        }
        NodeStorage { node_static_sized_keys: stat, node_dynamic_sized_keys: dynv }
    }
}

/// Whether `d` is a well-formed packed node record: two counted pair
/// arrays whose lengths add up exactly, every value fitting the machine.
pub open spec fn valid_node_storage(d: Seq<u8>) -> bool {
    &&& d.len() >= 16
    &&& 16 + 16 * le_at(d, 0, 8) + 8 <= d.len()
    &&& d.len() == 16 + 16 * le_at(d, 0, 8) + 16 * le_at(d, 8 + 16 * le_at(d, 0, 8), 8)
    &&& d.len() <= usize::MAX
    &&& (forall|i: int|
        0 <= i < le_at(d, 0, 8) ==> #[trigger] le_at(d, 8 + 16 * i, 8) <= usize::MAX && le_at(
            d,
            8 + 16 * i + 8,
            8,
        ) <= usize::MAX)
    &&& (forall|i: int|
        0 <= i < le_at(d, 8 + 16 * le_at(d, 0, 8), 8) ==> #[trigger] le_at(
            d,
            16 + 16 * le_at(d, 0, 8) + 16 * i,
            8,
        ) <= usize::MAX && le_at(d, 16 + 16 * le_at(d, 0, 8) + 16 * i + 8, 8) <= usize::MAX)
}

impl PartialEq for NodeStorage {
    /// Field-by-field comparison of the two key listings.
    fn eq(&self, other: &Self) -> (r: bool) {
        if self.node_static_sized_keys.len() != other.node_static_sized_keys.len() {
            return false;
        }
        if self.node_dynamic_sized_keys.len() != other.node_dynamic_sized_keys.len() {
            return false;
        }
        let mut i: usize = 0;
        while i < self.node_static_sized_keys.len()
            invariant
                i <= self.node_static_sized_keys@.len(),
                self.node_static_sized_keys@.len() == other.node_static_sized_keys@.len(),
                self.node_dynamic_sized_keys@.len() == other.node_dynamic_sized_keys@.len(),
                forall|t: int|
                    0 <= t < i ==> #[trigger] self.node_static_sized_keys@[t]
                        == other.node_static_sized_keys@[t],
            decreases self.node_static_sized_keys@.len() - i,
        {
            if self.node_static_sized_keys[i].0.hash != other.node_static_sized_keys[i].0.hash {
                return false;
            }
            if self.node_static_sized_keys[i].1.index != other.node_static_sized_keys[i].1.index {
                return false;
            }
            i = i + 1;
        }
        let mut j: usize = 0;
        while j < self.node_dynamic_sized_keys.len()
            invariant
                j <= self.node_dynamic_sized_keys@.len(),
                self.node_static_sized_keys@.len() == other.node_static_sized_keys@.len(),
                self.node_dynamic_sized_keys@.len() == other.node_dynamic_sized_keys@.len(),
                forall|t: int|
                    0 <= t < self.node_static_sized_keys@.len()
                        ==> #[trigger] self.node_static_sized_keys@[t]
                        == other.node_static_sized_keys@[t],
                forall|t: int|
                    0 <= t < j ==> #[trigger] self.node_dynamic_sized_keys@[t]
                        == other.node_dynamic_sized_keys@[t],
            decreases self.node_dynamic_sized_keys@.len() - j,
        {
            if self.node_dynamic_sized_keys[j].0.hash != other.node_dynamic_sized_keys[j].0.hash {
                return false;
            }
            if self.node_dynamic_sized_keys[j].1.index != other.node_dynamic_sized_keys[j].1.index {
                return false;
            }
            j = j + 1;
        }
        proof {
            assert(self.node_static_sized_keys@ =~= other.node_static_sized_keys@);
            assert(self.node_dynamic_sized_keys@ =~= other.node_dynamic_sized_keys@);
        }
        true
    }
}

impl vstd::std_specs::cmp::PartialEqSpecImpl for NodeStorage {
    open spec fn obeys_eq_spec() -> bool {
        true
    }

    open spec fn eq_spec(&self, other: &Self) -> bool {
        self.node_static_sized_keys@ == other.node_static_sized_keys@
            && self.node_dynamic_sized_keys@ == other.node_dynamic_sized_keys@
    }
}

/// The per-node key listing stored in the graph's node store: the node's
/// record key, its type identifier, and the keys of connected nodes.
#[derive(Debug, Clone)]
pub struct NodeKeyStorage {
    pub self_members: crate::table::Key,
    pub self_hash: NodeHash,
    pub linked_nodes: Vec<crate::variable_storage::Key>,
}

/// The packed bytes of a sequence of store keys, eight per key.
pub open spec fn keys_bytes(ks: Seq<int>) -> Seq<u8>
    decreases ks.len(),
{
    if ks.len() == 0 {
        Seq::empty()
    } else {
        le_bytes(ks[0], 8) + keys_bytes(ks.drop_first())
    }
}

proof fn lemma_keys_bytes_push(ks: Seq<int>, k: int)
    ensures
        keys_bytes(ks.push(k)) == keys_bytes(ks) + le_bytes(k, 8),
    decreases ks.len(),
{
    if ks.len() == 0 {
        assert(ks.push(k).drop_first() =~= ks);
        assert(keys_bytes(ks.push(k)) == le_bytes(k, 8) + keys_bytes(ks));
        assert(keys_bytes(ks.push(k)) =~= keys_bytes(ks) + le_bytes(k, 8));
    } else {
        assert(ks.push(k).drop_first() =~= ks.drop_first().push(k));
        lemma_keys_bytes_push(ks.drop_first(), k);
        assert(keys_bytes(ks.push(k)) == le_bytes(ks[0], 8) + keys_bytes(ks.drop_first().push(k)));
        assert(keys_bytes(ks.push(k)) =~= keys_bytes(ks) + le_bytes(k, 8));
    }
}

impl NodeKeyStorage {
    /// The linked-node keys as mathematical values.
    pub open spec fn links(&self) -> Seq<int> {
        Seq::new(self.linked_nodes@.len(), |i: int| self.linked_nodes@[i].index as int)
    }

    /// Serialises the listing: record key, type identifier, then one
    /// eight-byte entry per linked node.
    pub fn get_data_variable(&self) -> (r: Vec<u8>)
        requires
            16 + 8 * self.linked_nodes@.len() <= usize::MAX,
        ensures
            r@ == le_bytes(self.self_members.index as int, 8) + le_bytes(
                self.self_hash.hash as int,
                8,
            ) + keys_bytes(self.links()),
    {
        proof {
            lemma_pow256_values();
        }
        let mut buffer: Vec<u8> = Vec::new();
        push_le(&mut buffer, self.self_members.index as u64, 8);
        push_le(&mut buffer, self.self_hash.hash as u64, 8);
        let mut i: usize = 0;
        while i < self.linked_nodes.len()
            invariant
                i <= self.linked_nodes@.len(),
                16 + 8 * self.linked_nodes@.len() <= usize::MAX,
                buffer@.len() == 16 + 8 * i,
                buffer@ == le_bytes(self.self_members.index as int, 8) + le_bytes(
                    self.self_hash.hash as int,
                    8,
                ) + keys_bytes(self.links().take(i as int)),
            decreases self.linked_nodes@.len() - i,
        {
            proof {
                lemma_pow256_values();
                assert(self.links().take(i + 1) =~= self.links().take(i as int).push(
                    self.links()[i as int],
                ));
                lemma_keys_bytes_push(self.links().take(i as int), self.links()[i as int]);
                assert(8 * (i as int) + 8 <= 8 * self.linked_nodes@.len()) by (nonlinear_arith)
                    requires
                        (i as int) + 1 <= self.linked_nodes@.len(),
                ;
            }
            let key = self.linked_nodes[i].index;
            push_le(&mut buffer, key as u64, 8);
            proof {
                assert(buffer@ =~= le_bytes(self.self_members.index as int, 8) + le_bytes(
                    self.self_hash.hash as int,
                    8,
                ) + keys_bytes(self.links().take(i + 1)));
            }
            i = i + 1;
        }
        proof {
            assert(self.links().take(self.links().len() as int) =~= self.links());
        }
        buffer
    }

    /// Parses a listing: the byte count past the two leading fields must
    /// be a whole number of key entries.
    pub fn from_binary(data: Vec<u8>) -> (r: Self)
        requires
            data@.len() >= 16,
            data@.len() % 8 == 0,
            le_at(data@, 0, 8) <= usize::MAX,
            le_at(data@, 8, 8) <= usize::MAX,
            forall|i: int|
                0 <= i < (data@.len() - 16) / 8 ==> #[trigger] le_at(data@, 16 + 8 * i, 8)
                    <= usize::MAX,
        ensures
            r.self_members.index as int == le_at(data@, 0, 8),
            r.self_hash.hash as int == le_at(data@, 8, 8),
            r.links().len() == (data@.len() - 16) / 8,
            forall|i: int|
                0 <= i < r.links().len() ==> #[trigger] r.links()[i] == le_at(data@, 16 + 8 * i, 8),
    {
        let dl = data.len();
        let members = read_le_vec(&data, 0, 8);
        let hash = read_le_vec(&data, 8, 8);
        let num_keys = (dl - 16) / 8;
        proof {
            vstd::arithmetic::div_mod::lemma_fundamental_div_mod(dl as int, 8);
            vstd::arithmetic::div_mod::lemma_fundamental_div_mod(dl - 16, 8);
        }
        let mut linked: Vec<crate::variable_storage::Key> = Vec::new();
        let mut i: usize = 0;
        while i < num_keys
            invariant
                dl == data@.len(),
                dl >= 16,
                num_keys as int == (dl - 16) / 8,
                8 * (num_keys as int) == dl - 16,
                forall|t: int|
                    0 <= t < num_keys ==> #[trigger] le_at(data@, 16 + 8 * t, 8) <= usize::MAX,
                i <= num_keys,
                linked@.len() == i,
                forall|t: int|
                    0 <= t < i ==> #[trigger] linked@[t].index as int == le_at(
                        data@,
                        16 + 8 * t,
                        8,
                    ),
            decreases num_keys - i,
        {
            proof {
                assert(8 * (i as int) + 8 <= 8 * (num_keys as int)) by (nonlinear_arith)
                    requires
                        (i as int) + 1 <= num_keys as int,
                ;
                assert(0 <= 8 * (i as int)) by (nonlinear_arith)
                    requires
                        0 <= i,
                ;
            }
            let key = read_le_vec(&data, 16 + 8 * i, 8);
            linked.push(crate::variable_storage::Key { index: key as usize });
            i = i + 1;
        }
        NodeKeyStorage {
            self_members: crate::table::Key { index: members as usize },
            self_hash: NodeHash { hash: hash as usize },
            linked_nodes: linked,
        }
    }
}

} // verus!
