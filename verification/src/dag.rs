//! The DAG builder: it content-addresses each chunk of a source,
//! persists every leaf through a blockstore capability, and builds one
//! root descriptor referencing all leaves directly — flat fan-out, no
//! intermediate levels. The root descriptor is serialized in a
//! canonical deterministic binary map encoding: stable field order,
//! optional fields omitted entirely rather than null, each link's
//! identifier carried as a tagged binary string.

use crate::chunk::{chunk_seq, concat_chunks, ChunkReader, ChunkSource};
use crate::content_id::{cid_data_of, BlockCid, DAG_CBOR, RAW_CODEC};
use crate::store::{Blockstore, MemoryBlockstore, StoreError};
use vstd::prelude::*;

verus! {

/// The mathematical content of a link.
#[verifier::ext_equal]
pub ghost struct LinkView {
    pub cid: Seq<u8>,
    pub name: Option<Seq<u8>>,
    pub size: Option<u64>,
}

/// The mathematical content of a DAG descriptor.
#[verifier::ext_equal]
pub ghost struct NodeView {
    pub data: Option<Seq<u8>>,
    pub links: Seq<LinkView>,
}

/// A reference from a descriptor to a child block: its identifier, an
/// optional display name held as UTF-8 bytes, and an optional declared
/// size.
pub struct Link {
    cid: BlockCid,
    name: Option<Vec<u8>>,
    size: Option<u64>,
}

impl View for Link {
    type V = LinkView;

    closed spec fn view(&self) -> LinkView {
        LinkView {
            cid: self.cid@,
            name: match self.name {
                Option::Some(ref n) => Option::Some(n@),
                Option::None => Option::None,
            },
            size: self.size,
        }
    }
}

impl From<BlockCid> for Link {
    /// A bare link: just the identifier, no name, no declared size.
    fn from(cid: BlockCid) -> (r: Link) {
        Link { cid, name: None, size: None }
    }
}

impl vstd::std_specs::convert::FromSpecImpl<BlockCid> for Link {
    open spec fn obeys_from_spec() -> bool {
        true
    }

    closed spec fn from_spec(cid: BlockCid) -> Link {
        Link { cid, name: None, size: None }
    }
}

/// What `Link::from` builds: a bare link carrying just the identifier,
/// with the display name and declared size absent, so both fields are
/// omitted from the canonical encoding.
pub proof fn lemma_link_from(cid: BlockCid)
    ensures
        (<Link as vstd::std_specs::convert::FromSpec<BlockCid>>::from_spec(cid))@ == (LinkView {
            cid: cid@,
            name: Option::None,
            size: Option::None,
        }),
{
}

/// A DAG descriptor: optional inline data (unused by this builder) and
/// an ordered sequence of links.
pub struct Node {
    data: Option<Vec<u8>>,
    links: Vec<Link>,
}

impl View for Node {
    type V = NodeView;

    closed spec fn view(&self) -> NodeView {
        NodeView {
            data: match self.data {
                Option::Some(ref d) => Option::Some(d@),
                Option::None => Option::None,
            },
            links: self.links@.map_values(|l: Link| l@),
        }
    }
}

impl Node {
    /// An empty descriptor with room reserved for the given number of
    /// links.
    pub fn with_links_cap(size: usize) -> (r: Node)
        ensures
            r@.data is None,
            r@.links.len() == 0,
    {
        let r = Node { data: None, links: Vec::with_capacity(size) };
        proof {
            assert(r@.links =~= Seq::<LinkView>::empty());
        }
        r
    }
}

/// The head of one CBOR item: a major type and its argument, in the
/// shortest form.
pub open spec fn cbor_head(major: u8, v: u64) -> Seq<u8> {
    if v < 24 {
        seq![(major << 5) | (v as u8)]
    } else if v < 256 {
        seq![(major << 5) | 24u8, v as u8]
    } else if v < 65536 {
        seq![(major << 5) | 25u8, (v >> 8) as u8, v as u8]
    } else if v < 4294967296 {
        seq![(major << 5) | 26u8, (v >> 24) as u8, (v >> 16) as u8, (v >> 8) as u8, v as u8]
    } else {
        seq![
            (major << 5) | 27u8,
            (v >> 56) as u8,
            (v >> 48) as u8,
            (v >> 40) as u8,
            (v >> 32) as u8,
            (v >> 24) as u8,
            (v >> 16) as u8,
            (v >> 8) as u8,
            v as u8,
        ]
    }
}

/// The canonical encoding of one link: a map with `cid` always, `name`
/// and `size` only when present, in that order; the identifier is a
/// tagged binary string with a leading zero byte.
pub open spec fn enc_link(l: LinkView) -> Seq<u8> {
    let count: u64 = (1 + (if l.name is Some {
        1int
    } else {
        0
    }) + (if l.size is Some {
        1int
    } else {
        0
    })) as u64;
    cbor_head(5, count) + cbor_head(3, 3) + seq![99u8, 105u8, 100u8] + cbor_head(6, 42)
        + cbor_head(2, (l.cid.len() + 1) as u64) + seq![0u8] + l.cid + (match l.name {
        Option::Some(nm) => cbor_head(3, 4) + seq![110u8, 97u8, 109u8, 101u8] + cbor_head(
            3,
            nm.len() as u64,
        ) + nm,
        Option::None => Seq::empty(),
    }) + (match l.size {
        Option::Some(sz) => cbor_head(3, 4) + seq![115u8, 105u8, 122u8, 101u8] + cbor_head(0, sz),
        Option::None => Seq::empty(),
    })
}

/// Links encoded end to end.
pub open spec fn enc_link_list(ls: Seq<LinkView>) -> Seq<u8>
    decreases ls.len(),
{
    if ls.len() == 0 {
        Seq::empty()
    } else {
        enc_link(ls[0]) + enc_link_list(ls.skip(1))
    }
}

/// The canonical encoding of a descriptor: a map holding `data` only
/// when present, then `links` as an array of link maps.
pub open spec fn enc_node(n: NodeView) -> Seq<u8> {
    let count: u64 = if n.data is Some {
        2
    } else {
        1
    };
    cbor_head(5, count) + (match n.data {
        Option::Some(d) => cbor_head(3, 4) + seq![100u8, 97u8, 116u8, 97u8] + cbor_head(
            2,
            d.len() as u64,
        ) + d,
        Option::None => Seq::empty(),
    }) + cbor_head(3, 5) + seq![108u8, 105u8, 110u8, 107u8, 115u8] + cbor_head(
        4,
        n.links.len() as u64,
    ) + enc_link_list(n.links)
}

/// A descriptor whose every length fits its encoding head.
pub open spec fn node_wf(n: NodeView) -> bool {
    &&& (n.data matches Option::Some(d) ==> d.len() < 0x1_0000_0000_0000_0000)
    &&& n.links.len() < 0x1_0000_0000_0000_0000
    &&& forall|i: int|
        0 <= i < n.links.len() ==> (#[trigger] n.links[i]).cid.len() + 1
            < 0x1_0000_0000_0000_0000 && (n.links[i].name matches Option::Some(nm) ==> nm.len()
            < 0x1_0000_0000_0000_0000)
}

/// Appending one link extends the encoded list by that link.
proof fn lemma_enc_link_list_push(ls: Seq<LinkView>, l: LinkView)
    ensures
        enc_link_list(ls.push(l)) == enc_link_list(ls) + enc_link(l),
    decreases ls.len(),
{
    if ls.len() == 0 {
        assert(ls.push(l)[0] == l);
        assert(ls.push(l).skip(1) =~= Seq::<LinkView>::empty());
        assert(enc_link_list(ls.push(l)) == enc_link(ls.push(l)[0]) + enc_link_list(
            ls.push(l).skip(1),
        ));
        assert(enc_link_list(Seq::<LinkView>::empty()) == Seq::<u8>::empty());
        assert(enc_link_list(ls) == Seq::<u8>::empty());
        assert(enc_link_list(ls.push(l)) =~= enc_link_list(ls) + enc_link(l));
    } else {
        assert(ls.push(l)[0] == ls[0]);
        assert(ls.push(l).skip(1) =~= ls.skip(1).push(l));
        lemma_enc_link_list_push(ls.skip(1), l);
        assert(enc_link_list(ls.push(l)) == enc_link(ls.push(l)[0]) + enc_link_list(
            ls.push(l).skip(1),
        ));
        assert(enc_link_list(ls.push(l)) == enc_link(ls[0]) + (enc_link_list(ls.skip(1))
            + enc_link(l)));
        assert(enc_link_list(ls) == enc_link(ls[0]) + enc_link_list(ls.skip(1)));
        assert(enc_link_list(ls.push(l)) =~= enc_link_list(ls) + enc_link(l));
    }
}

/// Appends the head of one CBOR item.
fn push_cbor_head(out: &mut Vec<u8>, major: u8, v: u64)
    ensures
        final(out)@ == old(out)@ + cbor_head(major, v),
{
    if v < 24 {
        out.push((major << 5) | (v as u8));
    } else if v < 256 {
        out.push((major << 5) | 24u8);
        out.push(v as u8);
    } else if v < 65536 {
        out.push((major << 5) | 25u8);
        out.push((v >> 8) as u8);
        out.push(v as u8);
    } else if v < 4294967296 {
        out.push((major << 5) | 26u8);
        out.push((v >> 24) as u8);
        out.push((v >> 16) as u8);
        out.push((v >> 8) as u8);
        out.push(v as u8);
    } else {
        out.push((major << 5) | 27u8);
        out.push((v >> 56) as u8);
        out.push((v >> 48) as u8);
        out.push((v >> 40) as u8);
        out.push((v >> 32) as u8);
        out.push((v >> 24) as u8);
        out.push((v >> 16) as u8);
        out.push((v >> 8) as u8);
        out.push(v as u8);
    }
    proof {
        assert(out@ =~= old(out)@ + cbor_head(major, v));
    }
}

/// Appends the bytes of `b`.
fn push_raw(out: &mut Vec<u8>, b: &Vec<u8>)
    ensures
        final(out)@ == old(out)@ + b@,
{
    let mut i: usize = 0;
    while i < b.len()
        invariant
            i <= b@.len(),
            out@ == old(out)@ + b@.take(i as int),
        decreases b@.len() - i,
    {
        out.push(b[i]);
        proof {
            assert(b@.take(i + 1) =~= b@.take(i as int).push(b@[i as int]));
            assert(out@ =~= old(out)@ + b@.take(i + 1));
        }
        i = i + 1;
    }
    proof {
        assert(b@.take(b@.len() as int) =~= b@);
    }
}

/// Appends the canonical encoding of one link.
#[verifier::rlimit(60)]
fn push_link(out: &mut Vec<u8>, l: &Link)
    requires
        l@.cid.len() + 1 < 0x1_0000_0000_0000_0000,
        l@.name matches Option::Some(nm) ==> nm.len() < 0x1_0000_0000_0000_0000,
    ensures
        final(out)@ == old(out)@ + enc_link(l@),
{
    let ghost base = out@;
    let count: u64 = 1 + (if l.name.is_some() {
        1u64
    } else {
        0u64
    }) + (if l.size.is_some() {
        1u64
    } else {
        0u64
    });
    let ghost seg_count = cbor_head(5, count);
    let ghost seg_cid_key = cbor_head(3, 3) + seq![99u8, 105u8, 100u8];
    let ghost seg_tag = cbor_head(6, 42);
    let ghost seg_cid = cbor_head(2, (l@.cid.len() + 1) as u64) + seq![0u8] + l@.cid;
    let ghost seg_name: Seq<u8> = match l@.name {
        Option::Some(nm) => cbor_head(3, 4) + seq![110u8, 97u8, 109u8, 101u8] + cbor_head(
            3,
            nm.len() as u64,
        ) + nm,
        Option::None => Seq::empty(),
    };
    let ghost seg_size: Seq<u8> = match l@.size {
        Option::Some(sz) => cbor_head(3, 4) + seq![115u8, 105u8, 122u8, 101u8] + cbor_head(0, sz),
        Option::None => Seq::empty(),
    };
    proof {
        assert(enc_link(l@) =~= seg_count + seg_cid_key + seg_tag + seg_cid + seg_name + seg_size);
    }
    push_cbor_head(out, 5, count);
    proof {
        assert(out@ =~= base + seg_count);
    }
    push_cbor_head(out, 3, 3);
    out.push(99u8);
    out.push(105u8);
    out.push(100u8);
    proof {
        assert(out@ =~= base + seg_count + seg_cid_key);
    }
    push_cbor_head(out, 6, 42);
    proof {
        assert(out@ =~= base + seg_count + seg_cid_key + seg_tag);
    }
    let cid_bytes = l.cid.to_bytes();
    proof {
        vstd::std_specs::vec::axiom_spec_len(&cid_bytes);
    }
    push_cbor_head(out, 2, (cid_bytes.len() as u64) + 1);
    out.push(0u8);
    push_raw(out, &cid_bytes);
    proof {
        assert(out@ =~= base + seg_count + seg_cid_key + seg_tag + seg_cid);
    }
    match &l.name {
        Some(nm) => {
            proof {
                vstd::std_specs::vec::axiom_spec_len(nm);
            }
            push_cbor_head(out, 3, 4);
            out.push(110u8);
            out.push(97u8);
            out.push(109u8);
            out.push(101u8);
            push_cbor_head(out, 3, nm.len() as u64);
            push_raw(out, nm);
        }
        None => {}
    }
    proof {
        assert(out@ =~= base + seg_count + seg_cid_key + seg_tag + seg_cid + seg_name);
    }
    match l.size {
        Some(sz) => {
            push_cbor_head(out, 3, 4);
            out.push(115u8);
            out.push(105u8);
            out.push(122u8);
            out.push(101u8);
            push_cbor_head(out, 0, sz);
        }
        None => {}
    }
    proof {
        assert(out@ =~= base + seg_count + seg_cid_key + seg_tag + seg_cid + seg_name + seg_size);
        assert(out@ =~= base + (seg_count + seg_cid_key + seg_tag + seg_cid + seg_name + seg_size));
        assert(out@ =~= base + enc_link(l@));
    }
}

/// Serializes a descriptor in the canonical deterministic encoding.
pub fn encode_node(n: &Node) -> (r: Vec<u8>)
    requires
        node_wf(n@),
    ensures
        r@ == enc_node(n@),
{
    let mut out: Vec<u8> = Vec::new();
    let count: u64 = if n.data.is_some() {
        2
    } else {
        1
    };
    push_cbor_head(&mut out, 5, count);
    match &n.data {
        Some(d) => {
            proof {
                vstd::std_specs::vec::axiom_spec_len(d);
            }
            push_cbor_head(&mut out, 3, 4);
            out.push(100u8);
            out.push(97u8);
            out.push(116u8);
            out.push(97u8);
            push_cbor_head(&mut out, 2, d.len() as u64);
            push_raw(&mut out, d);
        }
        None => {}
    }
    push_cbor_head(&mut out, 3, 5);
    out.push(108u8);
    out.push(105u8);
    out.push(110u8);
    out.push(107u8);
    out.push(115u8);
    push_cbor_head(&mut out, 4, n.links.len() as u64);
    let ghost head = out@;
    let mut i: usize = 0;
    while i < n.links.len()
        invariant
            node_wf(n@),
            i <= n.links@.len(),
            out@ == head + enc_link_list(n@.links.take(i as int)),
        decreases n.links@.len() - i,
    {
        proof {
            assert(n@.links[i as int] == n.links@[i as int]@);
        }
        push_link(&mut out, &n.links[i]);
        proof {
            let ls = n@.links;
            assert(ls.take(i + 1) =~= ls.take(i as int).push(ls[i as int]));
            lemma_enc_link_list_push(ls.take(i as int), ls[i as int]);
            assert(out@ =~= head + enc_link_list(ls.take(i + 1)));
        }
        i = i + 1;
    }
    proof {
        assert(n@.links.take(n@.links.len() as int) =~= n@.links);
        assert(out@ =~= enc_node(n@));
    }
    out
}

/// The identifier of a leaf chunk: raw-bytes codec over its SHA-256
/// digest.
pub open spec fn leaf_cid(c: Seq<u8>) -> Seq<u8> {
    cid_data_of(RAW_CODEC, c)
}

/// The root descriptor over a chunk sequence: one bare link per chunk,
/// in order, no inline data.
pub open spec fn node_of(cs: Seq<Seq<u8>>) -> NodeView {
    NodeView {
        data: Option::None,
        links: cs.map_values(|c: Seq<u8>| LinkView { cid: leaf_cid(c), name: Option::None, size: Option::None }),
    }
}

/// The root descriptor's encoded bytes.
pub open spec fn root_bytes_of(cs: Seq<Seq<u8>>) -> Seq<u8> {
    enc_node(node_of(cs))
}

/// The root's identifier: DAG descriptor codec over the encoded root.
pub open spec fn root_cid_of(cs: Seq<Seq<u8>>) -> Seq<u8> {
    cid_data_of(DAG_CBOR, root_bytes_of(cs))
}

/// The store's content after every chunk is stored under its
/// identifier, in order.
pub open spec fn store_after(m: Map<Seq<u8>, Seq<u8>>, cs: Seq<Seq<u8>>) -> Map<Seq<u8>, Seq<u8>>
    decreases cs.len(),
{
    if cs.len() == 0 {
        m
    } else {
        store_after(m, cs.drop_last()).insert(leaf_cid(cs.last()), cs.last())
    }
}

/// DAG shape: the root over P chunks has exactly P links, and link i
/// carries chunk i's identifier.
pub proof fn lemma_dag_shape(cs: Seq<Seq<u8>>)
    ensures
        node_of(cs).links.len() == cs.len(),
        forall|i: int| 0 <= i < cs.len() ==> (#[trigger] node_of(cs).links[i]).cid == leaf_cid(cs[i]),
        node_of(cs).data is None,
{
}

/// Determinism: identical bytes yield identical identifiers, and
/// identical chunk sequences yield the same root identifier, the same
/// encoded root, and the same leaf count.
pub proof fn lemma_dag_deterministic(a: Seq<Seq<u8>>, b: Seq<Seq<u8>>)
    requires
        a == b,
    ensures
        root_cid_of(a) == root_cid_of(b),
        root_bytes_of(a) == root_bytes_of(b),
        a.len() == b.len(),
{
}

/// A store a DAG can be built onto: put is all the builder needs.
pub trait Storer: Sized {
    /// The store's internal well-formedness; operations keep it.
    spec fn inv(&self) -> bool;

    /// The abstract content: identifier bytes to block payload.
    spec fn blocks(&self) -> Map<Seq<u8>, Seq<u8>>;

    /// Put a block with a pre-computed cid.
    fn put_keyed(&mut self, k: &BlockCid, block: &[u8]) -> (r: Result<(), StoreError>)
        requires
            old(self).inv(),
        ensures
            final(self).inv(),
            r is Ok ==> final(self).blocks() == old(self).blocks().insert(k@, block@),
            r is Err ==> final(self).blocks() == old(self).blocks() || final(self).blocks()
                == old(self).blocks().insert(k@, block@),
    ;
}

impl Storer for MemoryBlockstore {
    open spec fn inv(&self) -> bool {
        <MemoryBlockstore as Blockstore>::inv(self)
    }

    open spec fn blocks(&self) -> Map<Seq<u8>, Seq<u8>> {
        <MemoryBlockstore as Blockstore>::blocks(self)
    }

    fn put_keyed(&mut self, k: &BlockCid, block: &[u8]) -> (r: Result<(), StoreError>) {
        <MemoryBlockstore as Blockstore>::put_keyed(self, k, block)
    }
}

/// The result of a build: the root identifier, how many leaves it
/// references, and the encoded root's byte length.
#[derive(Debug)]
pub struct DagInfo {
    pub root: BlockCid,
    pub leaves: usize,
    pub root_size: usize,
}

/// Builds a flat DAG from an owned chunk sequence into an owned store.
pub struct DagBuilder<C, S> {
    chunks: ChunkReader<C>,
    store: S,
    max_links: usize,
}

impl<C: ChunkSource, S: Storer> DagBuilder<C, S> {
    /// The store's well-formedness, carried through the build.
    pub closed spec fn inv(&self) -> bool {
        self.store.inv()
    }

    /// The store's abstract content.
    pub closed spec fn store_blocks(&self) -> Map<Seq<u8>, Seq<u8>> {
        self.store.blocks()
    }

    /// The bytes the chunk source still has to deliver.
    pub closed spec fn source_remaining(&self) -> Seq<u8> {
        self.chunks.remaining()
    }

    /// Whether the chunk source is exact.
    pub closed spec fn source_exact(&self) -> bool {
        self.chunks.source_exact()
    }

    /// The configured chunk size.
    pub closed spec fn chunk_size(&self) -> usize {
        self.chunks.chunk_size()
    }

    /// A builder over a chunk sequence and a store.
    pub fn new(chunks: ChunkReader<C>, store: S) -> (r: DagBuilder<C, S>)
        ensures
            r.inv() == store.inv(),
            r.store_blocks() == store.blocks(),
            r.source_remaining() == chunks.remaining(),
            r.chunk_size() == chunks.chunk_size(),
            r.source_exact() == chunks.source_exact(),
    {
        DagBuilder { chunks, store, max_links: 11 }
    }

    /// Takes the store back out of the builder.
    pub fn into_store(self) -> (r: S)
        ensures
            r.blocks() == self.store_blocks(),
            r.inv() == self.inv(),
    {
        let DagBuilder { chunks: _, store, max_links: _ } = self;
        store
    }

    /// Builds the DAG: for each chunk in order, computes its
    /// identifier, stores the block under it, and appends a bare link
    /// to the in-progress root; then encodes the root, stores it under
    /// its own identifier, and reports it. A store failure aborts the
    /// build at once; leaves already stored are not rolled back, which
    /// is acceptable because re-storing content-addressed blocks is
    /// idempotent.
    pub fn trickle(&mut self) -> (r: Result<DagInfo, StoreError>)
        requires
            old(self).inv(),
        ensures
            final(self).inv(),
            r matches Ok(info) ==> exists|cs: Seq<Seq<u8>>|
                {
                    &&& old(self).source_remaining() == concat_chunks(cs)
                        + final(self).source_remaining()
                    &&& forall|i: int|
                        0 <= i < cs.len() ==> 1 <= (#[trigger] cs[i]).len()
                            <= old(self).chunk_size()
                    &&& info.leaves == cs.len()
                    &&& info.root@ == root_cid_of(cs)
                    &&& info.root_size == root_bytes_of(cs).len()
                    &&& final(self).store_blocks() == store_after(
                        old(self).store_blocks(),
                        cs,
                    ).insert(root_cid_of(cs), root_bytes_of(cs))
                },
            r matches Ok(info) ==> (old(self).source_exact() && old(self).chunk_size() >= 1 ==> {
                &&& final(self).source_remaining().len() == 0
                &&& info.leaves == chunk_seq(
                    old(self).source_remaining(),
                    old(self).chunk_size() as nat,
                ).len()
                &&& info.root@ == root_cid_of(
                    chunk_seq(old(self).source_remaining(), old(self).chunk_size() as nat),
                )
                &&& info.root_size == root_bytes_of(
                    chunk_seq(old(self).source_remaining(), old(self).chunk_size() as nat),
                ).len()
                &&& final(self).store_blocks() == store_after(
                    old(self).store_blocks(),
                    chunk_seq(old(self).source_remaining(), old(self).chunk_size() as nat),
                ).insert(
                    root_cid_of(chunk_seq(old(self).source_remaining(), old(self).chunk_size() as nat)),
                    root_bytes_of(
                        chunk_seq(old(self).source_remaining(), old(self).chunk_size() as nat),
                    ),
                )
            }),
            r is Err ==> exists|cs: Seq<Seq<u8>>|
                {
                    &&& old(self).source_remaining() == concat_chunks(cs)
                        + final(self).source_remaining()
                    &&& forall|i: int|
                        0 <= i < cs.len() ==> 1 <= (#[trigger] cs[i]).len()
                            <= old(self).chunk_size()
                    &&& (exists|m: int|
                        0 <= m <= cs.len() && final(self).store_blocks() == store_after(
                            old(self).store_blocks(),
                            #[trigger] cs.take(m),
                        )) || final(self).store_blocks() == store_after(
                        old(self).store_blocks(),
                        cs,
                    ).insert(root_cid_of(cs), root_bytes_of(cs))
                },
    {
        let mut node = Node::with_links_cap(self.max_links);
        let ghost mut cs: Seq<Seq<u8>> = Seq::empty();
        loop
            invariant
                self.store.inv(),
                self.chunks.chunk_size() == old(self).chunk_size(),
                node@.data is None,
                node@.links == cs.map_values(
                    |c: Seq<u8>| LinkView { cid: leaf_cid(c), name: Option::None, size: Option::None },
                ),
                forall|i: int| 0 <= i < node@.links.len() ==> (#[trigger] node@.links[i]).cid.len()
                    < 256,
                old(self).source_remaining() == concat_chunks(cs) + self.chunks.remaining(),
                forall|i: int|
                    0 <= i < cs.len() ==> 1 <= (#[trigger] cs[i]).len() <= old(self).chunk_size(),
                self.store.blocks() == store_after(old(self).store_blocks(), cs),
                old(self).source_exact() && old(self).chunk_size() >= 1
                    ==> self.chunks.source_exact() && chunk_seq(
                    old(self).source_remaining(),
                    old(self).chunk_size() as nat,
                ) == cs + chunk_seq(self.chunks.remaining(), old(self).chunk_size() as nat),
            ensures
                old(self).source_exact() && old(self).chunk_size() >= 1
                    ==> self.chunks.remaining().len() == 0,
            decreases self.chunks.remaining().len() + 1,
        {
            let ghost rem0 = self.chunks.remaining();
            let data = match self.chunks.next() {
                Some(d) => d,
                None => {
                    break ;
                }
            };
            let cid = BlockCid::for_data(RAW_CODEC, data.as_slice());
            match self.store.put_keyed(&cid, data.as_slice()) {
                Ok(()) => {}
                Err(e) => {
                    proof {
                        let c = data@;
                        let csw = cs.push(c);
                        lemma_concat_chunks_push(cs, c);
                        assert(rem0 =~= rem0.take(c.len() as int) + rem0.skip(c.len() as int));
                        assert(old(self).source_remaining() =~= concat_chunks(csw)
                            + self.chunks.remaining());
                        assert(store_after(old(self).store_blocks(), csw) == store_after(
                            old(self).store_blocks(),
                            cs,
                        ).insert(leaf_cid(c), c)) by {
                            assert(csw.drop_last() =~= cs);
                            assert(csw.last() == c);
                        }
                        assert(csw.take(cs.len() as int) =~= cs);
                        assert(csw.take(csw.len() as int) =~= csw);
                        if self.store.blocks() == store_after(old(self).store_blocks(), cs) {
                            assert(self.store.blocks() == store_after(
                                old(self).store_blocks(),
                                csw.take(cs.len() as int),
                            ));
                        } else {
                            assert(self.store.blocks() == store_after(
                                old(self).store_blocks(),
                                csw.take(csw.len() as int),
                            ));
                        }
                    }
                    return Err(e);
                }
            }
            let ghost pre_links = node@.links;
            let link = Link { cid, name: None, size: None };
            let ghost lv = link@;
            node.links.push(link);
            proof {
                let c = data@;
                assert(lv == LinkView { cid: leaf_cid(c), name: Option::None, size: Option::None });
                assert(node@.links =~= pre_links.push(lv));
                assert(rem0 =~= rem0.take(c.len() as int) + rem0.skip(c.len() as int));
                lemma_concat_chunks_push(cs, c);
                assert(concat_chunks(cs.push(c)) + self.chunks.remaining() =~= concat_chunks(cs)
                    + rem0);
                assert(store_after(old(self).store_blocks(), cs.push(c)) == store_after(
                    old(self).store_blocks(),
                    cs,
                ).insert(leaf_cid(c), c)) by {
                    assert(cs.push(c).drop_last() =~= cs);
                    assert(cs.push(c).last() == c);
                }
                if old(self).source_exact() && old(self).chunk_size() >= 1 {
                    let size = old(self).chunk_size() as nat;
                    if rem0.len() <= size {
                        assert(c =~= rem0);
                        assert(chunk_seq(rem0, size) =~= seq![c] + chunk_seq(
                            self.chunks.remaining(),
                            size,
                        ));
                    } else {
                        assert(c == rem0.take(size as int));
                        assert(chunk_seq(rem0, size) =~= seq![c] + chunk_seq(
                            self.chunks.remaining(),
                            size,
                        ));
                    }
                    assert(cs.push(c) + chunk_seq(self.chunks.remaining(), size) =~= cs + (
                    seq![c] + chunk_seq(self.chunks.remaining(), size)));
                }
                cs = cs.push(c);
                assert(node@.links =~= cs.map_values(
                    |c: Seq<u8>| LinkView { cid: leaf_cid(c), name: Option::None, size: Option::None },
                ));
            }
        }
        proof {
            assert(node_wf(node@)) by {
                vstd::std_specs::vec::axiom_spec_len(&node.links);
            }
            assert(node@ =~= node_of(cs));
        }
        let enc = encode_node(&node);
        let root = BlockCid::for_data(DAG_CBOR, enc.as_slice());
        match self.store.put_keyed(&root, enc.as_slice()) {
            Ok(()) => {}
            Err(e) => {
                proof {
                    assert(cs.take(cs.len() as int) =~= cs);
                    assert(enc@ == root_bytes_of(cs));
                    assert(root@ == root_cid_of(cs));
                    if self.store.blocks() == store_after(old(self).store_blocks(), cs) {
                        assert(self.store.blocks() == store_after(
                            old(self).store_blocks(),
                            cs.take(cs.len() as int),
                        ));
                    }
                }
                return Err(e);
            }
        }
        let leaves = node.links.len();
        let root_size = enc.len();
        proof {
            assert(node@.links.len() == cs.len());
            assert(enc@ == root_bytes_of(cs));
            assert(root@ == root_cid_of(cs));
            assert(self.store_blocks() == store_after(old(self).store_blocks(), cs).insert(
                root_cid_of(cs),
                root_bytes_of(cs),
            ));
            assert(old(self).source_remaining() == concat_chunks(cs)
                + self.source_remaining());
            assert(leaves == cs.len());
            assert(root_size == root_bytes_of(cs).len());
            if old(self).source_exact() && old(self).chunk_size() >= 1 {
                let size = old(self).chunk_size() as nat;
                assert(chunk_seq(self.chunks.remaining(), size) =~= Seq::<Seq<u8>>::empty());
                assert(chunk_seq(old(self).source_remaining(), size) =~= cs);
            }
        }
        Ok(DagInfo { root, leaves, root_size })
    }
}

/// Chunks laid end to end grow by exactly the appended chunk.
proof fn lemma_concat_chunks_push(cs: Seq<Seq<u8>>, c: Seq<u8>)
    ensures
        concat_chunks(cs.push(c)) == concat_chunks(cs) + c,
    decreases cs.len(),
{
    if cs.len() == 0 {
        assert(cs.push(c)[0] == c);
        assert(cs.push(c).skip(1) =~= Seq::<Seq<u8>>::empty());
        assert(concat_chunks(cs.push(c)) == cs.push(c)[0] + concat_chunks(cs.push(c).skip(1)));
        assert(concat_chunks(Seq::<Seq<u8>>::empty()) == Seq::<u8>::empty());
        assert(concat_chunks(cs) == Seq::<u8>::empty());
        assert(concat_chunks(cs.push(c)) =~= concat_chunks(cs) + c);
    } else {
        assert(cs.push(c)[0] == cs[0]);
        assert(cs.push(c).skip(1) =~= cs.skip(1).push(c));
        lemma_concat_chunks_push(cs.skip(1), c);
        assert(concat_chunks(cs.push(c)) == cs.push(c)[0] + concat_chunks(cs.push(c).skip(1)));
        assert(concat_chunks(cs.push(c)) == cs[0] + (concat_chunks(cs.skip(1)) + c));
        assert(concat_chunks(cs) == cs[0] + concat_chunks(cs.skip(1)));
        assert(concat_chunks(cs.push(c)) =~= concat_chunks(cs) + c);
    }
}

} // verus!
