//! The page store: it implements the blockstore capability by routing
//! identifier bytes to pages — ordered key-value maps persisted as
//! opaque heap objects — through a persistent routing index kept at a
//! fixed, reserved heap object id. Every write loads the owning page,
//! mutates it, re-encodes it and commits it as a single-object atomic
//! batch; page allocation commits the new page and the refreshed index
//! in one batch, so the index and the page set never diverge. After
//! each successful write the store reads the heap-wide live/dead counts
//! and runs heap maintenance inline once dead objects outnumber live
//! ones. Pages grow without bound: no split or merge is triggered by
//! size, a deliberate scalability limitation.

use crate::bytes::{bytes_eq, bytes_le, copy_bytes, lemma_lex_antisym, lemma_lex_refl,
    lemma_lex_total, lemma_lex_trans, lex_le, slice_to_vec};
use crate::codec::{enc_bytes, enc_kv_list, enc_opt_bytes, enc_u64, kv_lens_ok, len_ok,
    lemma_enc_bytes_prefix_inj, lemma_enc_kv_list_prefix_inj, lemma_enc_kv_list_push,
    lemma_enc_opt_bytes_prefix_inj, lemma_enc_u64_prefix_inj, opt_bytes_view, push_bytes,
    push_opt_bytes, push_u64, read_bytes, read_opt_bytes, read_u64};
use crate::content_id::BlockCid;
use crate::heap::{apply_batch, batch_view, compaction_due, Heap};
use crate::kvlist::{keys_unique, kv_get, kv_put, kv_remove, kvs_map, kvs_view};
use crate::store::{Blockstore, StoreError};
use vstd::map::*;
use vstd::prelude::*;

verus! {

/// The heap object id permanently reserved for the routing index.
pub const INDEX_OBJECT_ID: u64 = 1;

/// One page: a contiguous key range persisted as one heap object. The
/// high bound is carried but unused for lookup; a page's effective
/// range is its low bound up to the next page's low bound.
struct Page {
    hi: Option<Vec<u8>>,
    lo: Vec<u8>,
    kvs: Vec<(Vec<u8>, Vec<u8>)>,
}

/// The mathematical content of a page.
#[verifier::ext_equal]
pub ghost struct PageView {
    pub hi: Option<Seq<u8>>,
    pub lo: Seq<u8>,
    pub kvs: Seq<(Seq<u8>, Seq<u8>)>,
}

impl View for Page {
    type V = PageView;

    closed spec fn view(&self) -> PageView {
        PageView {
            hi: match self.hi {
                Option::Some(h) => Option::Some(h@),
                Option::None => Option::None,
            },
            lo: self.lo@,
            kvs: kvs_view(self.kvs@),
        }
    }
}

/// A page whose every field can be re-encoded faithfully.
pub open spec fn page_wf(pv: PageView) -> bool {
    &&& keys_unique(pv.kvs)
    &&& kv_lens_ok(pv.kvs)
    &&& len_ok(pv.lo)
    &&& (pv.hi matches Option::Some(h) ==> len_ok(h))
    &&& pv.kvs.len() < 0x1_0000_0000_0000_0000
}

/// The persisted form of a page: high bound, low bound, then the
/// key-value records behind their count, in declaration order.
pub open spec fn enc_page(pv: PageView) -> Seq<u8> {
    enc_opt_bytes(pv.hi) + enc_bytes(pv.lo) + enc_u64(pv.kvs.len() as u64) + enc_kv_list(pv.kvs)
}

/// Every field of a real pair vector fits the encoding's length
/// prefixes.
proof fn lemma_vec_kv_lens(v: &Vec<(Vec<u8>, Vec<u8>)>)
    ensures
        kv_lens_ok(kvs_view(v@)),
        kvs_view(v@).len() < 0x1_0000_0000_0000_0000,
{
    vstd::std_specs::vec::axiom_spec_len(v);
    assert(v@.len() <= usize::MAX);
    let s = kvs_view(v@);
    assert forall|i: int|
        0 <= i < s.len() implies #[trigger] s[i].0.len() < 0x1_0000_0000_0000_0000 && s[i].1.len()
        < 0x1_0000_0000_0000_0000 by {
        vstd::std_specs::vec::axiom_spec_len(&v@[i].0);
        vstd::std_specs::vec::axiom_spec_len(&v@[i].1);
        assert(s[i] == (v@[i].0@, v@[i].1@));
    }
}

/// Every low bound of a real entry vector fits the encoding's length
/// prefixes.
proof fn lemma_vec_entry_lens(v: &Vec<(Vec<u8>, u64)>)
    ensures
        forall|i: int| 0 <= i < pages_view(v@).len() ==> len_ok((#[trigger] pages_view(v@)[i]).0),
{
    let s = pages_view(v@);
    assert forall|i: int| 0 <= i < s.len() implies len_ok((#[trigger] s[i]).0) by {
        vstd::std_specs::vec::axiom_spec_len(&v@[i].0);
        assert(s[i] == (v@[i].0@, v@[i].1));
    }
}

/// A well-formed page is determined by its persisted form.
proof fn lemma_enc_page_inj(a: PageView, b: PageView)
    requires
        enc_page(a) == enc_page(b),
        page_wf(a),
        page_wf(b),
    ensures
        a == b,
{
    let ra = enc_bytes(a.lo) + (enc_u64(a.kvs.len() as u64) + enc_kv_list(a.kvs));
    let rb = enc_bytes(b.lo) + (enc_u64(b.kvs.len() as u64) + enc_kv_list(b.kvs));
    assert(enc_page(a) =~= enc_opt_bytes(a.hi) + ra);
    assert(enc_page(b) =~= enc_opt_bytes(b.hi) + rb);
    lemma_enc_opt_bytes_prefix_inj(a.hi, b.hi, ra, rb);
    let sa = enc_u64(a.kvs.len() as u64) + enc_kv_list(a.kvs);
    let sb = enc_u64(b.kvs.len() as u64) + enc_kv_list(b.kvs);
    lemma_enc_bytes_prefix_inj(a.lo, b.lo, sa, sb);
    lemma_enc_u64_prefix_inj(
        a.kvs.len() as u64,
        b.kvs.len() as u64,
        enc_kv_list(a.kvs),
        enc_kv_list(b.kvs),
    );
    assert(a.kvs.len() == b.kvs.len());
    assert(enc_kv_list(a.kvs) + Seq::<u8>::empty() =~= enc_kv_list(b.kvs) + Seq::<u8>::empty());
    lemma_enc_kv_list_prefix_inj(a.kvs, b.kvs, Seq::empty(), Seq::empty());
    assert(a =~= b);
}

/// The page a well-formed persisted form stands for.
pub open spec fn decoded_page(bytes: Seq<u8>) -> PageView {
    choose|pv: PageView| bytes == enc_page(pv) && page_wf(pv)
}

proof fn lemma_decoded_page_is(bytes: Seq<u8>, pv: PageView)
    requires
        bytes == enc_page(pv),
        page_wf(pv),
    ensures
        decoded_page(bytes) == pv,
{
    assert(bytes == enc_page(pv) && page_wf(pv));
    let q = decoded_page(bytes);
    assert(bytes == enc_page(q) && page_wf(q));
    lemma_enc_page_inj(pv, q);
}

/// Serializes a page in the record encoding.
fn encode_page(p: &Page) -> (r: Vec<u8>)
    ensures
        r@ == enc_page(p@),
{
    let mut out: Vec<u8> = Vec::new();
    push_opt_bytes(&mut out, &p.hi);
    push_bytes(&mut out, &p.lo);
    push_u64(&mut out, p.kvs.len() as u64);
    let ghost head = out@;
    let mut i: usize = 0;
    while i < p.kvs.len()
        invariant
            i <= p.kvs@.len(),
            out@ == head + enc_kv_list(kvs_view(p.kvs@).take(i as int)),
        decreases p.kvs@.len() - i,
    {
        push_bytes(&mut out, &p.kvs[i].0);
        push_bytes(&mut out, &p.kvs[i].1);
        proof {
            let kv = kvs_view(p.kvs@);
            assert(kv.take(i + 1) =~= kv.take(i as int).push(kv[i as int]));
            lemma_enc_kv_list_push(kv.take(i as int), kv[i as int]);
            assert(out@ =~= head + enc_kv_list(kv.take(i + 1)));
        }
        i = i + 1;
    }
    proof {
        assert(kvs_view(p.kvs@).take(p.kvs@.len() as int) =~= kvs_view(p.kvs@));
        assert(out@ =~= enc_page(p@));
    }
    out
}

/// Parses a page and accepts it only if it re-encodes to the input:
/// a decode failure signals corruption, never silently repaired. Every
/// well-formed persisted page decodes, so corruption is reported only
/// where it exists.
#[verifier::loop_isolation(false)]
#[verifier::rlimit(100)]
fn decode_page(s: &Vec<u8>) -> (r: Option<Page>)
    ensures
        r matches Option::Some(p) ==> s@ == enc_page(p@) && page_wf(p@),
        (exists|pv: PageView| page_wf(pv) && s@ == enc_page(pv)) ==> r is Some,
{
    let ghost hyp = exists|pv: PageView| page_wf(pv) && s@ == enc_page(pv);
    let ghost pv0: PageView = choose|pv: PageView| page_wf(pv) && s@ == enc_page(pv);
    proof {
        if hyp {
            assert(s@.skip(0) =~= enc_opt_bytes(pv0.hi) + (enc_bytes(pv0.lo) + (enc_u64(
                pv0.kvs.len() as u64,
            ) + enc_kv_list(pv0.kvs))));
        }
    }
    let (hi, i1) = match read_opt_bytes(s, 0) {
        Option::Some(p) => p,
        Option::None => {
            proof {
                if hyp {
                    assert(false);
                }
            }
            return Option::None;
        }
    };
    proof {
        if hyp {
            assert(opt_bytes_view(hi) == pv0.hi);
            assert(i1 == enc_opt_bytes(pv0.hi).len());
            assert(s@.skip(i1 as int) =~= s@.skip(0).skip(i1 as int));
            assert(s@.skip(i1 as int) =~= enc_bytes(pv0.lo) + (enc_u64(pv0.kvs.len() as u64)
                + enc_kv_list(pv0.kvs)));
        }
    }
    let (lo, i2) = match read_bytes(s, i1) {
        Option::Some(p) => p,
        Option::None => {
            proof {
                if hyp {
                    assert(false);
                }
            }
            return Option::None;
        }
    };
    proof {
        if hyp {
            assert(lo@ == pv0.lo);
            assert(i2 == i1 + 8 + pv0.lo.len());
            assert(s@.skip(i2 as int) =~= s@.skip(i1 as int).skip(8 + pv0.lo.len() as int));
            assert(s@.skip(i2 as int) =~= enc_u64(pv0.kvs.len() as u64) + enc_kv_list(pv0.kvs));
        }
    }
    let (count, i3) = match read_u64(s, i2) {
        Option::Some(p) => p,
        Option::None => {
            proof {
                if hyp {
                    assert(false);
                }
            }
            return Option::None;
        }
    };
    proof {
        if hyp {
            assert(i2 + 8 <= s@.len()) by {
                assert(s@.skip(i2 as int).len() >= 8);
            }
            vstd::std_specs::vec::axiom_spec_len(s);
            assert(count == pv0.kvs.len() as u64);
            assert(i3 == i2 + 8);
            assert(s@.skip(i3 as int) =~= s@.skip(i2 as int).skip(8));
            assert(s@.skip(i3 as int) =~= enc_kv_list(pv0.kvs));
            assert(pv0.kvs.skip(0) =~= pv0.kvs);
        }
    }
    let mut kvs: Vec<(Vec<u8>, Vec<u8>)> = Vec::new();
    let mut c: u64 = 0;
    let mut pos: usize = i3;
    while c < count
        invariant
            pos <= s@.len(),
            hyp ==> c <= pv0.kvs.len() && kvs_view(kvs@) == pv0.kvs.take(c as int) && s@.skip(
                pos as int,
            ) == enc_kv_list(pv0.kvs.skip(c as int)),
        decreases s@.len() - pos, count - c,
    {
        proof {
            if hyp {
                let tail = pv0.kvs.skip(c as int);
                assert(tail[0] == pv0.kvs[c as int]);
                assert(tail.skip(1) =~= pv0.kvs.skip(c + 1));
                assert(s@.skip(pos as int) =~= enc_bytes(pv0.kvs[c as int].0) + (enc_bytes(
                    pv0.kvs[c as int].1,
                ) + enc_kv_list(pv0.kvs.skip(c + 1))));
            }
        }
        let (k, ja) = match read_bytes(s, pos) {
            Option::Some(p) => p,
            Option::None => {
                proof {
                    if hyp {
                        assert(false);
                    }
                }
                return Option::None;
            }
        };
        proof {
            if hyp {
                assert(k@ == pv0.kvs[c as int].0);
                assert(ja == pos + 8 + pv0.kvs[c as int].0.len());
                assert(s@.skip(ja as int) =~= s@.skip(pos as int).skip(
                    8 + pv0.kvs[c as int].0.len() as int,
                ));
                assert(s@.skip(ja as int) =~= enc_bytes(pv0.kvs[c as int].1) + enc_kv_list(
                    pv0.kvs.skip(c + 1),
                ));
            }
        }
        let (v, jb) = match read_bytes(s, ja) {
            Option::Some(p) => p,
            Option::None => {
                proof {
                    if hyp {
                        assert(false);
                    }
                }
                return Option::None;
            }
        };
        let ghost pre = kvs_view(kvs@);
        kvs.push((k, v));
        proof {
            if hyp {
                assert(v@ == pv0.kvs[c as int].1);
                assert(jb == ja + 8 + pv0.kvs[c as int].1.len());
                assert(s@.skip(jb as int) =~= s@.skip(ja as int).skip(
                    8 + pv0.kvs[c as int].1.len() as int,
                ));
                assert(s@.skip(jb as int) =~= enc_kv_list(pv0.kvs.skip(c + 1)));
                assert(kvs_view(kvs@) =~= pre.push((k@, v@)));
                assert(pv0.kvs.take(c + 1) =~= pv0.kvs.take(c as int).push(pv0.kvs[c as int]));
                assert(kvs_view(kvs@) =~= pv0.kvs.take(c + 1));
            }
        }
        pos = jb;
        c = c + 1;
    }
    proof {
        if hyp {
            assert(kvs_view(kvs@) =~= pv0.kvs);
        }
    }
    // keys must be unique for the page to stand for a map
    let mut a: usize = 0;
    while a < kvs.len()
        invariant
            forall|x: int, y: int|
                0 <= x < y < kvs@.len() && x < a ==> (#[trigger] kvs_view(kvs@)[x]).0 != (
                #[trigger] kvs_view(kvs@)[y]).0,
        decreases kvs@.len() - a,
    {
        let mut b: usize = a + 1;
        while b < kvs.len()
            invariant
                a < kvs@.len() || a + 1 >= b,
                a + 1 <= b,
                forall|y: int|
                    a < y < kvs@.len() && y < b ==> (#[trigger] kvs_view(kvs@)[y]).0 != kvs_view(
                        kvs@,
                    )[a as int].0,
            decreases kvs@.len() - b,
        {
            if bytes_eq(&kvs[a].0, &kvs[b].0) {
                proof {
                    if hyp {
                        assert(kvs_view(kvs@)[a as int].0 == pv0.kvs[a as int].0);
                        assert(kvs_view(kvs@)[b as int].0 == pv0.kvs[b as int].0);
                        assert(false);
                    }
                }
                return Option::None;
            }
            b = b + 1;
        }
        a = a + 1;
    }
    let candidate = Page { hi, lo, kvs };
    let enc = encode_page(&candidate);
    proof {
        assert(keys_unique(candidate@.kvs));
        lemma_vec_kv_lens(&candidate.kvs);
        vstd::std_specs::vec::axiom_spec_len(&candidate.lo);
        match candidate.hi {
            Option::Some(ref h) => {
                vstd::std_specs::vec::axiom_spec_len(h);
            }
            Option::None => {}
        }
        assert(page_wf(candidate@));
    }
    if bytes_eq(&enc, s) {
        Option::Some(candidate)
    } else {
        proof {
            if hyp {
                assert(candidate@.hi == pv0.hi);
                assert(candidate@.lo == pv0.lo);
                assert(candidate@.kvs == pv0.kvs);
                assert(candidate@ =~= pv0);
                assert(enc@ == s@);
            }
        }
        Option::None
    }
}

/// The routing index: each page's low bound mapped to its heap object
/// id, plus the monotonically increasing last-allocated id. Persisted
/// at the reserved object id.
struct Index {
    pages: Vec<(Vec<u8>, u64)>,
    last_pid: u64,
}

/// The mathematical content of the routing index.
#[verifier::ext_equal]
pub ghost struct IndexView {
    pub pages: Seq<(Seq<u8>, u64)>,
    pub last_pid: u64,
}

/// The view of the index's entry list.
pub open spec fn pages_view(s: Seq<(Vec<u8>, u64)>) -> Seq<(Seq<u8>, u64)> {
    s.map_values(|e: (Vec<u8>, u64)| (e.0@, e.1))
}

impl View for Index {
    type V = IndexView;

    closed spec fn view(&self) -> IndexView {
        IndexView { pages: pages_view(self.pages@), last_pid: self.last_pid }
    }
}

impl Default for Index {
    /// A fresh index: no pages yet, ids handed out from just above the
    /// reserved index object id.
    fn default() -> (r: Index)
        ensures
            r@.pages.len() == 0,
            r@.last_pid == INDEX_OBJECT_ID,
    {
        Index { pages: Vec::new(), last_pid: INDEX_OBJECT_ID }
    }
}

/// The persisted form of the index: the entries behind their count,
/// then the id counter.
pub open spec fn enc_entry_list(s: Seq<(Seq<u8>, u64)>) -> Seq<u8>
    decreases s.len(),
{
    if s.len() == 0 {
        Seq::empty()
    } else {
        enc_bytes(s[0].0) + enc_u64(s[0].1) + enc_entry_list(s.skip(1))
    }
}

pub open spec fn enc_index(iv: IndexView) -> Seq<u8> {
    enc_u64(iv.pages.len() as u64) + enc_entry_list(iv.pages) + enc_u64(iv.last_pid)
}

/// An index whose every field can be re-encoded faithfully.
pub open spec fn index_enc_wf(iv: IndexView) -> bool {
    &&& iv.pages.len() < 0x1_0000_0000_0000_0000
    &&& forall|i: int| 0 <= i < iv.pages.len() ==> len_ok((#[trigger] iv.pages[i]).0)
}

/// Appending one entry extends the encoded list by that entry.
proof fn lemma_enc_entry_list_push(s: Seq<(Seq<u8>, u64)>, e: (Seq<u8>, u64))
    ensures
        enc_entry_list(s.push(e)) == enc_entry_list(s) + enc_bytes(e.0) + enc_u64(e.1),
    decreases s.len(),
{
    if s.len() == 0 {
        assert(s.push(e)[0] == e);
        assert(s.push(e).skip(1) =~= Seq::<(Seq<u8>, u64)>::empty());
        assert(enc_entry_list(s.push(e)) == enc_bytes(s.push(e)[0].0) + enc_u64(s.push(e)[0].1)
            + enc_entry_list(s.push(e).skip(1)));
        assert(enc_entry_list(Seq::<(Seq<u8>, u64)>::empty()) == Seq::<u8>::empty());
        assert(enc_entry_list(s) == Seq::<u8>::empty());
        assert(enc_entry_list(s.push(e)) =~= enc_entry_list(s) + enc_bytes(e.0) + enc_u64(e.1));
    } else {
        assert(s.push(e)[0] == s[0]);
        assert(s.push(e).skip(1) =~= s.skip(1).push(e));
        lemma_enc_entry_list_push(s.skip(1), e);
        assert(enc_entry_list(s.push(e)) == enc_bytes(s.push(e)[0].0) + enc_u64(s.push(e)[0].1)
            + enc_entry_list(s.push(e).skip(1)));
        assert(enc_entry_list(s.push(e)) == enc_bytes(s[0].0) + enc_u64(s[0].1) + (enc_entry_list(
            s.skip(1),
        ) + enc_bytes(e.0) + enc_u64(e.1)));
        assert(enc_entry_list(s) == enc_bytes(s[0].0) + enc_u64(s[0].1) + enc_entry_list(
            s.skip(1),
        ));
        assert(enc_entry_list(s.push(e)) =~= enc_entry_list(s) + enc_bytes(e.0) + enc_u64(e.1));
    }
}

/// Equal-length entry lists at the head of equal streams agree.
proof fn lemma_enc_entry_list_prefix_inj(
    s1: Seq<(Seq<u8>, u64)>,
    s2: Seq<(Seq<u8>, u64)>,
    r1: Seq<u8>,
    r2: Seq<u8>,
)
    requires
        enc_entry_list(s1) + r1 == enc_entry_list(s2) + r2,
        s1.len() == s2.len(),
        forall|i: int| 0 <= i < s1.len() ==> len_ok((#[trigger] s1[i]).0),
        forall|i: int| 0 <= i < s2.len() ==> len_ok((#[trigger] s2[i]).0),
    ensures
        s1 == s2,
        r1 == r2,
    decreases s1.len(),
{
    if s1.len() == 0 {
        assert(enc_entry_list(s1) + r1 =~= r1);
        assert(enc_entry_list(s2) + r2 =~= r2);
    } else {
        let t1 = enc_u64(s1[0].1) + (enc_entry_list(s1.skip(1)) + r1);
        let t2 = enc_u64(s2[0].1) + (enc_entry_list(s2.skip(1)) + r2);
        assert(enc_entry_list(s1) + r1 =~= enc_bytes(s1[0].0) + t1);
        assert(enc_entry_list(s2) + r2 =~= enc_bytes(s2[0].0) + t2);
        lemma_enc_bytes_prefix_inj(s1[0].0, s2[0].0, t1, t2);
        lemma_enc_u64_prefix_inj(
            s1[0].1,
            s2[0].1,
            enc_entry_list(s1.skip(1)) + r1,
            enc_entry_list(s2.skip(1)) + r2,
        );
        assert(forall|i: int|
            0 <= i < s1.skip(1).len() ==> len_ok((#[trigger] s1.skip(1)[i]).0)) by {
            assert(forall|i: int|
                0 <= i < s1.skip(1).len() ==> (#[trigger] s1.skip(1)[i]) == s1[i + 1]);
        }
        assert(forall|i: int|
            0 <= i < s2.skip(1).len() ==> len_ok((#[trigger] s2.skip(1)[i]).0)) by {
            assert(forall|i: int|
                0 <= i < s2.skip(1).len() ==> (#[trigger] s2.skip(1)[i]) == s2[i + 1]);
        }
        lemma_enc_entry_list_prefix_inj(s1.skip(1), s2.skip(1), r1, r2);
        assert(s1 =~= seq![s1[0]] + s1.skip(1));
        assert(s2 =~= seq![s2[0]] + s2.skip(1));
    }
}

/// A well-formed index is determined by its persisted form.
proof fn lemma_enc_index_inj(a: IndexView, b: IndexView)
    requires
        enc_index(a) == enc_index(b),
        index_enc_wf(a),
        index_enc_wf(b),
    ensures
        a == b,
{
    let ra = enc_entry_list(a.pages) + enc_u64(a.last_pid);
    let rb = enc_entry_list(b.pages) + enc_u64(b.last_pid);
    assert(enc_index(a) =~= enc_u64(a.pages.len() as u64) + ra);
    assert(enc_index(b) =~= enc_u64(b.pages.len() as u64) + rb);
    lemma_enc_u64_prefix_inj(a.pages.len() as u64, b.pages.len() as u64, ra, rb);
    assert(a.pages.len() == b.pages.len());
    lemma_enc_entry_list_prefix_inj(a.pages, b.pages, enc_u64(a.last_pid), enc_u64(b.last_pid));
    lemma_enc_u64_prefix_inj(a.last_pid, b.last_pid, Seq::empty(), Seq::empty());
    assert(enc_u64(a.last_pid) + Seq::<u8>::empty() =~= enc_u64(a.last_pid));
    assert(enc_u64(b.last_pid) + Seq::<u8>::empty() =~= enc_u64(b.last_pid));
    assert(a =~= b);
}

/// Serializes the index in the record encoding.
fn encode_index(ix: &Index) -> (r: Vec<u8>)
    ensures
        r@ == enc_index(ix@),
{
    let mut out: Vec<u8> = Vec::new();
    push_u64(&mut out, ix.pages.len() as u64);
    let ghost head = out@;
    let mut i: usize = 0;
    while i < ix.pages.len()
        invariant
            i <= ix.pages@.len(),
            out@ == head + enc_entry_list(pages_view(ix.pages@).take(i as int)),
        decreases ix.pages@.len() - i,
    {
        push_bytes(&mut out, &ix.pages[i].0);
        push_u64(&mut out, ix.pages[i].1);
        proof {
            let pv = pages_view(ix.pages@);
            assert(pv.take(i + 1) =~= pv.take(i as int).push(pv[i as int]));
            lemma_enc_entry_list_push(pv.take(i as int), pv[i as int]);
            assert(pv[i as int] == (ix.pages@[i as int].0@, ix.pages@[i as int].1));
            assert(out@ =~= head + enc_entry_list(pv.take(i + 1)));
        }
        i = i + 1;
    }
    push_u64(&mut out, ix.last_pid);
    proof {
        assert(pages_view(ix.pages@).take(ix.pages@.len() as int) =~= pages_view(ix.pages@));
        assert(out@ =~= enc_index(ix@));
    }
    out
}

/// Parses a persisted index and accepts it only if it re-encodes to
/// the input; every faithfully encoded index decodes.
#[verifier::loop_isolation(false)]
#[verifier::rlimit(100)]
fn decode_index(s: &Vec<u8>) -> (r: Option<Index>)
    ensures
        r matches Option::Some(ix) ==> s@ == enc_index(ix@) && index_enc_wf(ix@),
        (exists|iv: IndexView| index_enc_wf(iv) && s@ == enc_index(iv)) ==> r is Some,
{
    let ghost hyp = exists|iv: IndexView| index_enc_wf(iv) && s@ == enc_index(iv);
    let ghost iv0: IndexView = choose|iv: IndexView| index_enc_wf(iv) && s@ == enc_index(iv);
    proof {
        if hyp {
            assert(s@.skip(0) =~= enc_u64(iv0.pages.len() as u64) + (enc_entry_list(iv0.pages)
                + enc_u64(iv0.last_pid)));
        }
    }
    let (count, i) = match read_u64(s, 0) {
        Option::Some(p) => p,
        Option::None => {
            proof {
                if hyp {
                    assert(false);
                }
            }
            return Option::None;
        }
    };
    proof {
        if hyp {
            assert(count == iv0.pages.len() as u64);
            assert(i == 8);
            assert(s@.skip(i as int) =~= s@.skip(0).skip(8));
            assert(iv0.pages.skip(0) =~= iv0.pages);
            assert(s@.skip(i as int) =~= enc_entry_list(iv0.pages.skip(0)) + enc_u64(
                iv0.last_pid,
            ));
        }
    }
    let mut pages: Vec<(Vec<u8>, u64)> = Vec::new();
    let mut c: u64 = 0;
    let mut pos: usize = i;
    while c < count
        invariant
            pos <= s@.len(),
            hyp ==> c <= iv0.pages.len() && pages_view(pages@) == iv0.pages.take(c as int)
                && s@.skip(pos as int) == enc_entry_list(iv0.pages.skip(c as int)) + enc_u64(
                iv0.last_pid,
            ),
        decreases s@.len() - pos, count - c,
    {
        proof {
            if hyp {
                let tail = iv0.pages.skip(c as int);
                assert(tail[0] == iv0.pages[c as int]);
                assert(tail.skip(1) =~= iv0.pages.skip(c + 1));
                assert(s@.skip(pos as int) =~= enc_bytes(iv0.pages[c as int].0) + (enc_u64(
                    iv0.pages[c as int].1,
                ) + (enc_entry_list(iv0.pages.skip(c + 1)) + enc_u64(iv0.last_pid))));
            }
        }
        let (k, ja) = match read_bytes(s, pos) {
            Option::Some(p) => p,
            Option::None => {
                proof {
                    if hyp {
                        assert(false);
                    }
                }
                return Option::None;
            }
        };
        proof {
            if hyp {
                assert(k@ == iv0.pages[c as int].0);
                assert(ja == pos + 8 + iv0.pages[c as int].0.len());
                assert(s@.skip(ja as int) =~= s@.skip(pos as int).skip(
                    8 + iv0.pages[c as int].0.len() as int,
                ));
                assert(s@.skip(ja as int) =~= enc_u64(iv0.pages[c as int].1) + (enc_entry_list(
                    iv0.pages.skip(c + 1),
                ) + enc_u64(iv0.last_pid)));
            }
        }
        let (pid, jb) = match read_u64(s, ja) {
            Option::Some(p) => p,
            Option::None => {
                proof {
                    if hyp {
                        assert(false);
                    }
                }
                return Option::None;
            }
        };
        let ghost pre = pages_view(pages@);
        pages.push((k, pid));
        proof {
            if hyp {
                assert(pid == iv0.pages[c as int].1);
                assert(ja + 8 <= s@.len()) by {
                    assert(s@.skip(ja as int).len() >= 8);
                }
                vstd::std_specs::vec::axiom_spec_len(s);
                assert(jb == ja + 8);
                assert(s@.skip(jb as int) =~= s@.skip(ja as int).skip(8));
                assert(s@.skip(jb as int) =~= enc_entry_list(iv0.pages.skip(c + 1)) + enc_u64(
                    iv0.last_pid,
                ));
                assert(pages_view(pages@) =~= pre.push((k@, pid)));
                assert(iv0.pages.take(c + 1) =~= iv0.pages.take(c as int).push(
                    iv0.pages[c as int],
                ));
                assert(pages_view(pages@) =~= iv0.pages.take(c + 1));
            }
        }
        pos = jb;
        c = c + 1;
    }
    proof {
        if hyp {
            assert(pages_view(pages@) =~= iv0.pages);
            assert(iv0.pages.skip(count as int) =~= Seq::<(Seq<u8>, u64)>::empty());
            assert(s@.skip(pos as int) =~= enc_u64(iv0.last_pid) + Seq::<u8>::empty());
        }
    }
    let (last_pid, _end) = match read_u64(s, pos) {
        Option::Some(p) => p,
        Option::None => {
            proof {
                if hyp {
                    assert(false);
                }
            }
            return Option::None;
        }
    };
    let candidate = Index { pages, last_pid };
    let enc = encode_index(&candidate);
    proof {
        lemma_vec_entry_lens(&candidate.pages);
        vstd::std_specs::vec::axiom_spec_len(&candidate.pages);
        assert(index_enc_wf(candidate@));
    }
    if bytes_eq(&enc, s) {
        Option::Some(candidate)
    } else {
        proof {
            if hyp {
                assert(last_pid == iv0.last_pid);
                assert(candidate@.pages == iv0.pages);
                assert(candidate@ =~= iv0);
                assert(enc@ == s@);
            }
        }
        Option::None
    }
}

/// Entry `i` owns key `k`: its low bound does not exceed `k`, and no
/// entry sits between them.
pub open spec fn covers(ps: Seq<(Seq<u8>, u64)>, i: int, k: Seq<u8>) -> bool {
    &&& 0 <= i < ps.len()
    &&& lex_le(ps[i].0, k)
    &&& forall|j: int|
        0 <= j < ps.len() && #[trigger] lex_le(ps[j].0, k) ==> lex_le(ps[j].0, ps[i].0)
}

/// The entry owning key `k`: the greatest low bound at or below it.
pub open spec fn route(ps: Seq<(Seq<u8>, u64)>, k: Seq<u8>) -> int {
    choose|i: int| covers(ps, i, k)
}

/// A well-formed entry list: nonempty, holding the empty low bound so
/// the pages cover the whole key space, with no low bound or object id
/// repeated, and no object id at or below the reserved index id.
pub open spec fn entries_wf(ps: Seq<(Seq<u8>, u64)>) -> bool {
    &&& ps.len() >= 1
    &&& exists|e: int| 0 <= e < ps.len() && (#[trigger] ps[e]).0 == Seq::<u8>::empty()
    &&& forall|i: int, j: int|
        0 <= i < j < ps.len() ==> (#[trigger] ps[i]).0 != (#[trigger] ps[j]).0 && ps[i].1 != ps[j].1
    &&& forall|i: int| 0 <= i < ps.len() ==> INDEX_OBJECT_ID < (#[trigger] ps[i]).1
    &&& forall|i: int| 0 <= i < ps.len() ==> len_ok((#[trigger] ps[i]).0)
}

/// A well-formed index: well-formed entries, every id at or below the
/// counter.
pub open spec fn index_wf(iv: IndexView) -> bool {
    &&& entries_wf(iv.pages)
    &&& forall|i: int| 0 <= i < iv.pages.len() ==> (#[trigger] iv.pages[i]).1 <= iv.last_pid
}

/// Among the first `n` entries, one with a low bound at or below `k`
/// implies a greatest such entry.
proof fn lemma_argmax(ps: Seq<(Seq<u8>, u64)>, k: Seq<u8>, n: int)
    requires
        1 <= n <= ps.len(),
        exists|j: int| 0 <= j < n && #[trigger] lex_le(ps[j].0, k),
    ensures
        exists|i: int|
            0 <= i < n && #[trigger] lex_le(ps[i].0, k) && forall|j: int|
                0 <= j < n && #[trigger] lex_le(ps[j].0, k) ==> lex_le(ps[j].0, ps[i].0),
    decreases n,
{
    if n == 1 {
        assert(lex_le(ps[0].0, k));
        assert forall|j: int| 0 <= j < 1 && #[trigger] lex_le(ps[j].0, k) implies lex_le(
            ps[j].0,
            ps[0].0,
        ) by {
            lemma_lex_refl(ps[0].0);
        }
        assert(0 <= 0 < n && lex_le(ps[0].0, k) && forall|j: int|
            0 <= j < n && #[trigger] lex_le(ps[j].0, k) ==> lex_le(ps[j].0, ps[0].0));
    } else {
        if exists|j: int| 0 <= j < n - 1 && #[trigger] lex_le(ps[j].0, k) {
            lemma_argmax(ps, k, n - 1);
            let i = choose|i: int|
                0 <= i < n - 1 && #[trigger] lex_le(ps[i].0, k) && forall|j: int|
                    0 <= j < n - 1 && #[trigger] lex_le(ps[j].0, k) ==> lex_le(ps[j].0, ps[i].0);
            if lex_le(ps[n - 1].0, k) {
                lemma_lex_total(ps[i].0, ps[n - 1].0);
                if lex_le(ps[i].0, ps[n - 1].0) {
                    assert forall|j: int|
                        0 <= j < n && #[trigger] lex_le(ps[j].0, k) implies lex_le(
                        ps[j].0,
                        ps[n - 1].0,
                    ) by {
                        if j == n - 1 {
                            lemma_lex_refl(ps[j].0);
                        } else {
                            assert(lex_le(ps[j].0, ps[i].0));
                            lemma_lex_trans(ps[j].0, ps[i].0, ps[n - 1].0);
                        }
                    }
                    assert(0 <= n - 1 < n && lex_le(ps[n - 1].0, k) && forall|j: int|
                        0 <= j < n && #[trigger] lex_le(ps[j].0, k) ==> lex_le(
                            ps[j].0,
                            ps[n - 1].0,
                        ));
                } else {
                    assert(lex_le(ps[n - 1].0, ps[i].0));
                    assert forall|j: int|
                        0 <= j < n && #[trigger] lex_le(ps[j].0, k) implies lex_le(
                        ps[j].0,
                        ps[i].0,
                    ) by {
                        if j < n - 1 {
                            assert(lex_le(ps[j].0, ps[i].0));
                        }
                    }
                    assert(0 <= i < n && lex_le(ps[i].0, k) && forall|j: int|
                        0 <= j < n && #[trigger] lex_le(ps[j].0, k) ==> lex_le(ps[j].0, ps[i].0));
                }
            } else {
                assert forall|j: int|
                    0 <= j < n && #[trigger] lex_le(ps[j].0, k) implies lex_le(ps[j].0, ps[i].0) by {
                    if j < n - 1 {
                        assert(lex_le(ps[j].0, ps[i].0));
                    }
                }
                assert(0 <= i < n && lex_le(ps[i].0, k) && forall|j: int|
                    0 <= j < n && #[trigger] lex_le(ps[j].0, k) ==> lex_le(ps[j].0, ps[i].0));
            }
        } else {
            assert(lex_le(ps[n - 1].0, k));
            assert forall|j: int|
                0 <= j < n && #[trigger] lex_le(ps[j].0, k) implies lex_le(ps[j].0, ps[n - 1].0) by {
                if j == n - 1 {
                    lemma_lex_refl(ps[j].0);
                }
            }
            assert(0 <= n - 1 < n && lex_le(ps[n - 1].0, k) && forall|j: int|
                0 <= j < n && #[trigger] lex_le(ps[j].0, k) ==> lex_le(ps[j].0, ps[n - 1].0));
        }
    }
}

/// Well-formed entries own every key.
pub proof fn lemma_covers_exists(ps: Seq<(Seq<u8>, u64)>, k: Seq<u8>)
    requires
        entries_wf(ps),
    ensures
        covers(ps, route(ps, k), k),
{
    let e = choose|e: int| 0 <= e < ps.len() && (#[trigger] ps[e]).0 == Seq::<u8>::empty();
    assert(lex_le(ps[e].0, k));
    lemma_argmax(ps, k, ps.len() as int);
    let i = choose|i: int|
        0 <= i < ps.len() && #[trigger] lex_le(ps[i].0, k) && forall|j: int|
            0 <= j < ps.len() && #[trigger] lex_le(ps[j].0, k) ==> lex_le(ps[j].0, ps[i].0);
    assert(covers(ps, i, k));
}

/// Routing consistency: a well-formed index owns every key through
/// exactly one entry, so as long as the index is unchanged — and a
/// write leaves it unchanged — the page selected for a key is the page
/// selected at its last write.
pub proof fn lemma_routing_consistency(ps: Seq<(Seq<u8>, u64)>, k: Seq<u8>)
    requires
        entries_wf(ps),
    ensures
        covers(ps, route(ps, k), k),
        forall|i: int| covers(ps, i, k) ==> i == route(ps, k),
{
    lemma_covers_exists(ps, k);
    assert forall|i: int| covers(ps, i, k) implies i == route(ps, k) by {
        lemma_covers_unique(ps, i, route(ps, k), k);
    }
}

/// No key is owned by two entries.
pub proof fn lemma_covers_unique(ps: Seq<(Seq<u8>, u64)>, i: int, j: int, k: Seq<u8>)
    requires
        entries_wf(ps),
        covers(ps, i, k),
        covers(ps, j, k),
    ensures
        i == j,
{
    assert(lex_le(ps[i].0, ps[j].0));
    assert(lex_le(ps[j].0, ps[i].0));
    lemma_lex_antisym(ps[i].0, ps[j].0);
    if i < j {
        assert(ps[i].0 != ps[j].0);
    } else if j < i {
        assert(ps[j].0 != ps[i].0);
    }
}

/// The entry owning `key`: a scan for the greatest low bound at or
/// below it.
fn route_scan(ps: &Vec<(Vec<u8>, u64)>, key: &Vec<u8>) -> (r: usize)
    requires
        entries_wf(pages_view(ps@)),
    ensures
        r < ps@.len(),
        covers(pages_view(ps@), r as int, key@),
{
    let ghost pv = pages_view(ps@);
    let mut best: usize = 0;
    let mut found = false;
    let mut i: usize = 0;
    while i < ps.len()
        invariant
            i <= ps@.len(),
            entries_wf(pv),
            pv == pages_view(ps@),
            found ==> best < i && lex_le(pv[best as int].0, key@),
            found ==> forall|j: int|
                0 <= j < i && #[trigger] lex_le(pv[j].0, key@) ==> lex_le(pv[j].0, pv[best as int].0),
            !found ==> forall|j: int| 0 <= j < i ==> !(#[trigger] lex_le(pv[j].0, key@)),
        decreases ps@.len() - i,
    {
        let le = bytes_le(&ps[i].0, key);
        proof {
            assert(pv[i as int].0 == ps@[i as int].0@);
        }
        if le {
            if !found {
                best = i;
                found = true;
                proof {
                    assert forall|j: int|
                        0 <= j < i + 1 && #[trigger] lex_le(pv[j].0, key@) implies lex_le(
                        pv[j].0,
                        pv[best as int].0,
                    ) by {
                        if j == i as int {
                            lemma_lex_refl(pv[j].0);
                        }
                    }
                }
            } else {
                let ghost oldbest = best as int;
                if bytes_le(&ps[best].0, &ps[i].0) {
                    best = i;
                    proof {
                        assert forall|j: int|
                            0 <= j < i + 1 && #[trigger] lex_le(pv[j].0, key@) implies lex_le(
                            pv[j].0,
                            pv[best as int].0,
                        ) by {
                            if j == i as int {
                                lemma_lex_refl(pv[j].0);
                            } else {
                                assert(lex_le(pv[j].0, pv[oldbest].0));
                                lemma_lex_trans(pv[j].0, pv[oldbest].0, pv[i as int].0);
                            }
                        }
                    }
                } else {
                    proof {
                        lemma_lex_total(pv[best as int].0, pv[i as int].0);
                        assert(lex_le(pv[i as int].0, pv[best as int].0));
                        assert forall|j: int|
                            0 <= j < i + 1 && #[trigger] lex_le(pv[j].0, key@) implies lex_le(
                            pv[j].0,
                            pv[best as int].0,
                        ) by {
                        }
                    }
                }
            }
        }
        i = i + 1;
    }
    proof {
        let e = choose|e: int| 0 <= e < pv.len() && (#[trigger] pv[e]).0 == Seq::<u8>::empty();
        assert(lex_le(pv[e].0, key@));
        assert(found);
        assert(covers(pv, best as int, key@));
    }
    best
}

/// What went wrong opening a store, with the heap handed back so the
/// caller keeps it.
pub struct OpenFailure<H> {
    pub error: StoreError,
    pub heap: H,
}

/// The page store over a heap collaborator.
pub struct Quarry<H: Heap> {
    heap: H,
    index: Index,
}

/// The map a page list stands for at key `k`: the content of the page
/// owning `k`.
pub open spec fn routed_kvs(
    ps: Seq<(Seq<u8>, u64)>,
    objects: Map<u64, Seq<u8>>,
    k: Seq<u8>,
) -> Map<Seq<u8>, Seq<u8>> {
    kvs_map(decoded_page(objects[ps[route(ps, k)].1]).kvs)
}

/// The abstract content of the store: each key as the page owning it
/// holds it.
pub open spec fn blocks_of(ps: Seq<(Seq<u8>, u64)>, objects: Map<u64, Seq<u8>>) -> Map<
    Seq<u8>,
    Seq<u8>,
> {
    Map::new(
        |k: Seq<u8>| routed_kvs(ps, objects, k).contains_key(k),
        |k: Seq<u8>| routed_kvs(ps, objects, k)[k],
    )
}

/// Entry `i` points at a well-formed persisted page whose low bound
/// matches and whose keys it owns.
pub open spec fn page_ok(objects: Map<u64, Seq<u8>>, ps: Seq<(Seq<u8>, u64)>, i: int) -> bool {
    &&& objects.contains_key(ps[i].1)
    &&& exists|pv: PageView| objects[ps[i].1] == enc_page(pv) && #[trigger] page_wf(pv)
    &&& decoded_page(objects[ps[i].1]).lo == ps[i].0
    &&& forall|j: int|
        0 <= j < decoded_page(objects[ps[i].1]).kvs.len() ==> covers(
            ps,
            i,
            (#[trigger] decoded_page(objects[ps[i].1]).kvs[j]).0,
        )
}

/// The bootstrap page: empty low bound covering the whole key space,
/// no high bound, no keys.
pub open spec fn empty_page_view() -> PageView {
    PageView { hi: Option::None, lo: Seq::empty(), kvs: Seq::empty() }
}

/// A sound persisted state: the reserved object holds the encoding of
/// `iv`, and what `iv` describes is whole — a nonempty index is
/// well-formed with every page present, decodable and owning its keys,
/// and an empty one carries a usable id counter. Opening rejects
/// exactly the heaps for which no such `iv` exists.
pub open spec fn persisted_index_wf(objects: Map<u64, Seq<u8>>, iv: IndexView) -> bool {
    &&& index_enc_wf(iv)
    &&& objects.contains_key(INDEX_OBJECT_ID)
    &&& objects[INDEX_OBJECT_ID] == enc_index(iv)
    &&& (iv.pages.len() >= 1 ==> index_wf(iv) && forall|i: int|
        0 <= i < iv.pages.len() ==> page_ok(objects, iv.pages, i))
    &&& (iv.pages.len() == 0 ==> INDEX_OBJECT_ID <= iv.last_pid < u64::MAX)
}

impl<H: Heap> Quarry<H> {
    /// The store's invariant: a well-formed index whose every entry
    /// points at a well-formed page of the keys it owns.
    pub closed spec fn wf(&self) -> bool {
        &&& index_wf(self.index@)
        &&& forall|i: int|
            0 <= i < self.index@.pages.len() ==> page_ok(
                self.heap.objects(),
                self.index@.pages,
                i,
            )
        &&& self.heap.objects().contains_key(INDEX_OBJECT_ID)
        &&& self.heap.objects()[INDEX_OBJECT_ID] == enc_index(self.index@)
    }

    /// The abstract content of the store.
    pub closed spec fn content(&self) -> Map<Seq<u8>, Seq<u8>> {
        blocks_of(self.index@.pages, self.heap.objects())
    }

    /// The routing index's view, for stating that writes keep routing.
    pub closed spec fn routing(&self) -> IndexView {
        self.index@
    }

    /// Opens a store over a heap: loads the persisted index, or
    /// bootstraps a fresh one with a single page covering the whole
    /// key space, committed atomically with the index. On failure the
    /// heap is handed back with nothing newly persisted.
    pub fn open(heap: H) -> (r: Result<Quarry<H>, OpenFailure<H>>)
        ensures
            r matches Ok(q) ==> {
                &&& q.wf()
                &&& q.content() == blocks_of(q.routing().pages, q.heap_objects())
                &&& q.heap_objects().contains_key(INDEX_OBJECT_ID)
                &&& q.heap_objects()[INDEX_OBJECT_ID] == enc_index(q.routing())
                &&& q.routing().pages.len() >= 1
                &&& index_enc_wf(q.routing())
            },
            r matches Ok(q) ==> (forall|iv: IndexView|
                index_enc_wf(iv) && iv.pages.len() >= 1 && heap.objects().contains_key(
                    INDEX_OBJECT_ID,
                ) && heap.objects()[INDEX_OBJECT_ID] == #[trigger] enc_index(iv) ==> q.routing()
                    == iv),
            r matches Ok(q) ==> (!heap.objects().contains_key(INDEX_OBJECT_ID) ==> {
                &&& q.routing().pages == seq![(Seq::<u8>::empty(), 2u64)]
                &&& q.routing().last_pid == 2
                &&& q.heap_objects() == heap.objects().insert(2, enc_page(empty_page_view())).insert(
                    INDEX_OBJECT_ID,
                    enc_index(q.routing()),
                )
                &&& q.content() == Map::<Seq<u8>, Seq<u8>>::empty()
            }),
            r matches Ok(q) ==> ((heap.objects().contains_key(INDEX_OBJECT_ID) && exists|
                iv: IndexView,
            |
                index_enc_wf(iv) && iv.pages.len() >= 1 && heap.objects()[INDEX_OBJECT_ID]
                    == enc_index(iv)) ==> q.heap_objects() == heap.objects()),
            r matches Err(f) ==> f.heap.objects() == heap.objects(),
            heap.objects().contains_key(INDEX_OBJECT_ID) && !(exists|iv: IndexView|
                index_enc_wf(iv) && heap.objects()[INDEX_OBJECT_ID] == enc_index(iv)) ==> (
            r matches Err(f) && (f.error == StoreError::Corrupt || f.error == StoreError::Heap)),
            r matches Err(f) ==> (f.error != StoreError::Heap ==> heap.objects().contains_key(
                INDEX_OBJECT_ID,
            ) && !(exists|iv: IndexView| persisted_index_wf(heap.objects(), iv))),
    {
        let read = heap.read(INDEX_OBJECT_ID);
        let ghost was_fresh = !heap.objects().contains_key(INDEX_OBJECT_ID);
        let index: Index = match read {
            Err(_) => {
                return Err(OpenFailure { error: StoreError::Heap, heap });
            }
            Ok(Some(data)) => {
                match decode_index(&data) {
                    Some(ix) => ix,
                    None => {
                        proof {
                            assert forall|iv: IndexView|
                                !persisted_index_wf(heap.objects(), iv) by {
                                if persisted_index_wf(heap.objects(), iv) {
                                    assert(index_enc_wf(iv) && data@ == enc_index(iv));
                                }
                            }
                        }
                        return Err(OpenFailure { error: StoreError::Corrupt, heap });
                    }
                }
            }
            Ok(None) => Index::default(),
        };
        proof {
            if !was_fresh {
                assert(exists|iv: IndexView|
                    index_enc_wf(iv) && heap.objects()[INDEX_OBJECT_ID] == enc_index(iv)) by {
                    assert(index_enc_wf(index@) && heap.objects()[INDEX_OBJECT_ID] == enc_index(
                        index@,
                    ));
                }
            }
        }
        if index.pages.len() == 0 {
            proof {
                if !was_fresh {
                    assert forall|iv: IndexView|
                        !(index_enc_wf(iv) && iv.pages.len() >= 1 && heap.objects()[
                        INDEX_OBJECT_ID] == enc_index(iv)) by {
                        if index_enc_wf(iv) && iv.pages.len() >= 1 && heap.objects()[
                            INDEX_OBJECT_ID] == enc_index(iv) {
                            lemma_enc_index_inj(iv, index@);
                        }
                    }
                }
            }
            if index.last_pid < INDEX_OBJECT_ID || index.last_pid == u64::MAX {
                proof {
                    assert(!was_fresh);
                    assert forall|iv: IndexView| !persisted_index_wf(heap.objects(), iv) by {
                        if persisted_index_wf(heap.objects(), iv) {
                            lemma_enc_index_inj(iv, index@);
                        }
                    }
                }
                return Err(OpenFailure { error: StoreError::Corrupt, heap });
            }
            let init_page = Page { hi: None, lo: Vec::new(), kvs: Vec::new() };
            proof {
                assert(init_page@ =~= empty_page_view());
            }
            let ghost heap0 = heap.objects();
            let mut qry = Quarry { index, heap };
            match qry.allocate_page(init_page) {
                Ok(()) => {
                    proof {
                        assert(qry.content() == blocks_of(qry.routing().pages, qry.heap_objects()));
                        assert(index_enc_wf(qry.routing())) by {
                            assert(qry.routing().pages.len() == 1);
                            assert(qry.routing().pages[0].0.len() == 0);
                        }
                        if was_fresh {
                            assert(qry.routing().last_pid == 2);
                            assert(qry.routing().pages =~= seq![(Seq::<u8>::empty(), 2u64)]);
                            assert(qry.heap_objects() == heap0.insert(
                                2,
                                enc_page(empty_page_view()),
                            ).insert(INDEX_OBJECT_ID, enc_index(qry.routing())));
                        }
                    }
                    Ok(qry)
                }
                Err(e) => {
                    let Quarry { heap: h, index: _ } = qry;
                    Err(OpenFailure { error: e, heap: h })
                }
            }
        } else {
            match Self::validate(&heap, &index) {
                Ok(()) => {
                    let q = Quarry { index, heap };
                    proof {
                        assert(q.wf());
                        assert(q.content() == blocks_of(q.routing().pages, q.heap_objects()));
                        assert forall|iv: IndexView|
                            index_enc_wf(iv) && iv.pages.len() >= 1 && heap.objects().contains_key(
                                INDEX_OBJECT_ID,
                            ) && heap.objects()[INDEX_OBJECT_ID] == #[trigger] enc_index(iv)
                            implies q.routing() == iv by {
                            lemma_enc_index_inj(iv, index@);
                        }
                    }
                    Ok(q)
                }
                Err(e) => {
                    proof {
                        if e != StoreError::Heap {
                            assert forall|iv: IndexView|
                                !persisted_index_wf(heap.objects(), iv) by {
                                if persisted_index_wf(heap.objects(), iv) {
                                    lemma_enc_index_inj(iv, index@);
                                    assert(iv == index@);
                                    assert(iv.pages.len() >= 1);
                                    assert(index_wf(index@) && forall|i: int|
                                        0 <= i < index@.pages.len() ==> page_ok(
                                            heap.objects(),
                                            index@.pages,
                                            i,
                                        ));
                                }
                            }
                        }
                    }
                    Err(OpenFailure { error: e, heap })
                }
            }
        }
    }

    /// Checks a loaded index and its pages for integrity: entry
    /// bounds, unique low bounds and ids, and each page present,
    /// decodable, and holding only keys it owns.
    #[verifier::loop_isolation(false)]
    fn validate(heap: &H, ix: &Index) -> (r: Result<(), StoreError>)
        requires
            ix@.pages.len() >= 1,
        ensures
            r is Ok ==> index_wf(ix@) && forall|i: int|
                0 <= i < ix@.pages.len() ==> page_ok(heap.objects(), ix@.pages, i),
            r matches Err(f) ==> f == StoreError::Heap || !(index_wf(ix@) && forall|i: int|
                0 <= i < ix@.pages.len() ==> page_ok(heap.objects(), ix@.pages, i)),
    {
        let ghost pv = pages_view(ix.pages@);
        let n = ix.pages.len();
        if n == 0 {
            proof {
                assert(false);
            }
            return Err(StoreError::Corrupt);
        }
        // an entry with the empty low bound must exist
        let mut found_empty = false;
        let mut i: usize = 0;
        while i < n
            invariant
                n == ix.pages@.len(),
                pv == pages_view(ix.pages@),
                i <= n,
                found_empty ==> exists|e: int| 0 <= e < pv.len() && (#[trigger] pv[e]).0
                    == Seq::<u8>::empty(),
                !found_empty ==> forall|e: int|
                    0 <= e < i ==> (#[trigger] pv[e]).0 != Seq::<u8>::empty(),
            decreases n - i,
        {
            if ix.pages[i].0.len() == 0 {
                proof {
                    assert(pv[i as int].0 =~= Seq::<u8>::empty());
                }
                found_empty = true;
            }
            i = i + 1;
        }
        if !found_empty {
            proof {
                assert(!entries_wf(pv));
            }
            return Err(StoreError::Corrupt);
        }
        // ids in range
        let mut i: usize = 0;
        while i < n
            invariant
                n == ix.pages@.len(),
                pv == pages_view(ix.pages@),
                i <= n,
                forall|a: int|
                    0 <= a < i ==> INDEX_OBJECT_ID < (#[trigger] pv[a]).1 && pv[a].1
                        <= ix@.last_pid,
            decreases n - i,
        {
            if ix.pages[i].1 <= INDEX_OBJECT_ID || ix.pages[i].1 > ix.last_pid {
                proof {
                    assert(pv[i as int].1 == ix.pages@[i as int].1);
                    assert(!(entries_wf(pv) && forall|a: int|
                        0 <= a < pv.len() ==> (#[trigger] pv[a]).1 <= ix@.last_pid));
                    assert(!index_wf(ix@));
                }
                return Err(StoreError::Corrupt);
            }
            i = i + 1;
        }
        // no low bound or id repeated
        let mut a: usize = 0;
        while a < n
            invariant
                n == ix.pages@.len(),
                pv == pages_view(ix.pages@),
                a <= n,
                forall|x: int, y: int|
                    0 <= x < y < pv.len() && x < a ==> (#[trigger] pv[x]).0 != (#[trigger] pv[y]).0
                        && pv[x].1 != pv[y].1,
            decreases n - a,
        {
            let mut b: usize = a + 1;
            while b < n
                invariant
                    n == ix.pages@.len(),
                    pv == pages_view(ix.pages@),
                    a < n,
                    a + 1 <= b,
                    forall|y: int|
                        a < y < pv.len() && y < b ==> (#[trigger] pv[y]).0 != pv[a as int].0
                            && pv[y].1 != pv[a as int].1,
                decreases n - b,
            {
                if bytes_eq(&ix.pages[a].0, &ix.pages[b].0) {
                    proof {
                        assert(pv[a as int].0 == pv[b as int].0);
                        assert(!entries_wf(pv));
                    }
                    return Err(StoreError::Corrupt);
                }
                if ix.pages[a].1 == ix.pages[b].1 {
                    proof {
                        assert(pv[a as int].1 == pv[b as int].1);
                        assert(!entries_wf(pv));
                    }
                    return Err(StoreError::Corrupt);
                }
                b = b + 1;
            }
            a = a + 1;
        }
        proof {
            lemma_vec_entry_lens(&ix.pages);
            assert(entries_wf(pv));
            assert(index_wf(ix@));
        }
        // every page present, decodable, low bound right, keys owned
        let mut i: usize = 0;
        while i < n
            invariant
                n == ix.pages@.len(),
                pv == pages_view(ix.pages@),
                i <= n,
                entries_wf(pv),
                index_wf(ix@),
                forall|a: int| 0 <= a < i ==> page_ok(heap.objects(), pv, a),
            decreases n - i,
        {
            let pid = ix.pages[i].1;
            let data = match heap.read(pid) {
                Err(_) => {
                    return Err(StoreError::Heap);
                }
                Ok(None) => {
                    proof {
                        assert(!page_ok(heap.objects(), pv, i as int));
                    }
                    return Err(StoreError::MissingPage);
                }
                Ok(Some(d)) => d,
            };
            let page = match decode_page(&data) {
                None => {
                    proof {
                        assert(heap.objects()[pid] == data@);
                        assert(!page_ok(heap.objects(), pv, i as int)) by {
                            if page_ok(heap.objects(), pv, i as int) {
                                assert(exists|pw: PageView|
                                    heap.objects()[pv[i as int].1] == enc_page(pw)
                                        && #[trigger] page_wf(pw));
                                let pw = choose|pw: PageView|
                                    heap.objects()[pv[i as int].1] == enc_page(pw)
                                        && #[trigger] page_wf(pw);
                                assert(page_wf(pw) && data@ == enc_page(pw));
                            }
                        }
                    }
                    return Err(StoreError::Corrupt);
                }
                Some(p) => p,
            };
            proof {
                lemma_decoded_page_is(data@, page@);
            }
            if !bytes_eq(&page.lo, &ix.pages[i].0) {
                proof {
                    assert(heap.objects()[pid] == data@);
                    assert(!page_ok(heap.objects(), pv, i as int)) by {
                        if page_ok(heap.objects(), pv, i as int) {
                            assert(decoded_page(heap.objects()[pv[i as int].1]) == page@);
                            assert(pv[i as int].0 == ix.pages@[i as int].0@);
                        }
                    }
                }
                return Err(StoreError::Corrupt);
            }
            let mut j: usize = 0;
            while j < page.kvs.len()
                invariant
                    n == ix.pages@.len(),
                    pv == pages_view(ix.pages@),
                    i < n,
                    entries_wf(pv),
                    j <= page.kvs@.len(),
                    forall|x: int|
                        0 <= x < j ==> covers(pv, i as int, (#[trigger] page@.kvs[x]).0),
                decreases page.kvs@.len() - j,
            {
                let owner = route_scan(&ix.pages, &page.kvs[j].0);
                if owner != i {
                    proof {
                        lemma_covers_exists(pv, page@.kvs[j as int].0);
                        assert(heap.objects()[pid] == data@);
                        assert(!page_ok(heap.objects(), pv, i as int)) by {
                            if page_ok(heap.objects(), pv, i as int) {
                                assert(decoded_page(heap.objects()[pv[i as int].1]) == page@);
                                assert(page@.kvs[j as int].0 == page.kvs@[j as int].0@);
                                assert(covers(pv, i as int, page@.kvs[j as int].0));
                                assert(covers(pv, owner as int, page@.kvs[j as int].0));
                                lemma_covers_unique(pv, i as int, owner as int,
                                    page@.kvs[j as int].0);
                            }
                        }
                    }
                    return Err(StoreError::Corrupt);
                }
                proof {
                    assert(page@.kvs[j as int].0 == page.kvs@[j as int].0@);
                }
                j = j + 1;
            }
            proof {
                assert(heap.objects()[pid] == data@);
                assert(data@ == enc_page(page@) && page_wf(page@));
                assert(page_ok(heap.objects(), pv, i as int));
            }
            i = i + 1;
        }
        Ok(())
    }

    /// Registers a freshly allocated page under the next object id and
    /// commits the page and the refreshed index in one atomic batch:
    /// after a failure, neither is persisted.
    fn allocate_page(&mut self, page: Page) -> (r: Result<(), StoreError>)
        requires
            old(self).index@.pages.len() == 0,
            INDEX_OBJECT_ID <= old(self).index@.last_pid < u64::MAX,
            page@.lo == Seq::<u8>::empty(),
            page@.kvs.len() == 0,
            page@.hi is None,
        ensures
            r is Ok ==> final(self).wf() && final(self).content() == Map::<Seq<u8>, Seq<u8>>::empty(),
            r is Ok ==> final(self).routing().last_pid == old(self).routing().last_pid + 1
                && final(self).routing().pages == old(self).routing().pages.push(
                (page@.lo, final(self).routing().last_pid),
            ) && final(self).heap_objects() == old(self).heap_objects().insert(
                final(self).routing().last_pid,
                enc_page(page@),
            ).insert(INDEX_OBJECT_ID, enc_index(final(self).routing())),
            r is Err ==> final(self).heap.objects() == old(self).heap.objects(),
            r matches Err(e) ==> e == StoreError::Heap,
    {
        self.index.last_pid = self.index.last_pid + 1;
        let object_id = self.index.last_pid;
        let lo = copy_bytes(&page.lo);
        self.index.pages.push((lo, object_id));
        let page_bytes = encode_page(&page);
        let index_bytes = encode_index(&self.index);
        let mut batch: Vec<(u64, Option<Vec<u8>>)> = Vec::new();
        batch.push((object_id, Some(page_bytes)));
        batch.push((INDEX_OBJECT_ID, Some(index_bytes)));
        let ghost pb = enc_page(page@);
        let ghost ib = index_bytes@;
        match self.heap.write_batch(batch) {
            Err(_) => Err(StoreError::Heap),
            Ok(()) => {
                proof {
                    let ps = self.index@.pages;
                    let m0 = old(self).heap.objects();
                    let b0 = seq![
                        (object_id, Option::Some(pb)),
                        (INDEX_OBJECT_ID, Option::Some(ib)),
                    ];
                    assert(batch_view(batch@) =~~= b0);
                    assert(b0.drop_last() =~~= seq![(object_id, Option::Some(pb))]);
                    let b1 = seq![(object_id, Option::Some(pb))];
                    assert(b1.drop_last() =~~= Seq::<(u64, Option<Seq<u8>>)>::empty());
                    assert(apply_batch(m0, Seq::<(u64, Option<Seq<u8>>)>::empty()) == m0);
                    assert(b1.last() == (object_id, Option::Some(pb)));
                    assert(apply_batch(m0, b1) == apply_batch(m0, b1.drop_last()).insert(
                        object_id,
                        pb,
                    ));
                    assert(apply_batch(m0, b1) == m0.insert(object_id, pb));
                    assert(apply_batch(m0, b0) == apply_batch(m0, b0.drop_last()).insert(
                        INDEX_OBJECT_ID,
                        ib,
                    ));
                    assert(apply_batch(m0, b0.drop_last()) == apply_batch(m0, b1));
                    assert(self.heap.objects() == m0.insert(object_id, pb).insert(
                        INDEX_OBJECT_ID,
                        ib,
                    ));
                    assert(ps.len() == 1);
                    assert(ps[0].0 =~= Seq::<u8>::empty());
                    assert(ps[0].1 == object_id);
                    assert(entries_wf(ps));
                    assert(index_wf(self.index@));
                    assert(page_wf(page@));
                    let objects = self.heap.objects();
                    assert(objects[object_id] == pb);
                    lemma_decoded_page_is(pb, page@);
                    assert(page_ok(objects, ps, 0));
                    assert(self.wf());
                    assert forall|k: Seq<u8>| !self.content().contains_key(k) by {
                        lemma_covers_exists(ps, k);
                        lemma_covers_unique(ps, route(ps, k), 0, k);
                        assert(decoded_page(objects[ps[0].1]).kvs.len() == 0);
                    }
                    assert(self.content() =~= Map::<Seq<u8>, Seq<u8>>::empty());
                    assert(ib == enc_index(self.index@));
                    assert(self.index@.pages =~= old(self).index@.pages.push(
                        (page@.lo, object_id),
                    ));
                }
                Ok(())
            }
        }
    }

    /// The heap's live objects, for relating a handle to the heap it
    /// runs on.
    pub closed spec fn heap_objects(&self) -> Map<u64, Seq<u8>> {
        self.heap.objects()
    }

    /// A view of the underlying heap, for inspecting its counts.
    pub fn heap(&self) -> (r: &H)
        ensures
            r.objects() == self.heap_objects(),
    {
        &self.heap
    }

    /// Closes the handle and hands the heap back, its persisted
    /// objects intact.
    pub fn into_heap(self) -> (r: H)
        ensures
            r.objects() == self.heap_objects(),
    {
        let Quarry { heap, index: _ } = self;
        heap
    }

    /// The object id of the page owning `key`.
    fn pid_for_key(&self, key: &Vec<u8>) -> (r: u64)
        requires
            self.wf(),
        ensures
            r == self.index@.pages[route(self.index@.pages, key@)].1,
    {
        let i = route_scan(&self.index.pages, key);
        proof {
            lemma_covers_exists(self.index@.pages, key@);
            lemma_covers_unique(
                self.index@.pages,
                i as int,
                route(self.index@.pages, key@),
                key@,
            );
        }
        self.index.pages[i].1
    }

    /// Loads the page owning `key`, applies one insertion or removal,
    /// re-encodes the page and commits it as a single-object batch;
    /// then reads the heap-wide counts and runs maintenance inline if
    /// dead objects outnumber live ones. Hands back the value the key
    /// held before. The routing index is untouched: the page owning a
    /// key stays the page of its last write until an allocation.
    fn mutate(&mut self, key: Vec<u8>, value: Option<Vec<u8>>) -> (r: Result<
        Option<Vec<u8>>,
        StoreError,
    >)
        requires
            old(self).wf(),
        ensures
            final(self).wf(),
            final(self).index@ == old(self).index@,
            final(self).heap_objects()[INDEX_OBJECT_ID] == old(self).heap_objects()[
                INDEX_OBJECT_ID],
            r matches Ok(_) ==> exists|b: Seq<u8>|
                final(self).heap_objects() == old(self).heap_objects().insert(
                    old(self).routing().pages[route(old(self).routing().pages, key@)].1,
                    b,
                ),
            r is Err ==> final(self).heap_objects() == old(self).heap_objects() || exists|
                b: Seq<u8>,
            |
                final(self).heap_objects() == old(self).heap_objects().insert(
                    old(self).routing().pages[route(old(self).routing().pages, key@)].1,
                    b,
                ),
            r matches Ok(prev) ==> final(self).content() == (match value {
                Option::Some(v) => old(self).content().insert(key@, v@),
                Option::None => old(self).content().remove(key@),
            }) && (prev matches Some(pb) ==> old(self).content().contains_key(key@) && pb@ == old(
                self,
            ).content()[key@]) && (prev is None ==> !old(self).content().contains_key(key@)),
            r is Err ==> final(self).content() == old(self).content() || final(self).content()
                == (match value {
                Option::Some(v) => old(self).content().insert(key@, v@),
                Option::None => old(self).content().remove(key@),
            }),
            r matches Err(e) ==> e == StoreError::Heap,
    {
        let ghost ps = self.index@.pages;
        let ghost objects0 = self.heap.objects();
        let ghost vv: Option<Seq<u8>> = match value {
            Option::Some(ref v) => Option::Some(v@),
            Option::None => Option::None,
        };
        proof {
            lemma_covers_exists(ps, key@);
        }
        let ghost i = route(ps, key@);
        let object_id = self.pid_for_key(&key);
        let leaf_data = match self.heap.read(object_id) {
            Err(_) => {
                return Err(StoreError::Heap);
            }
            Ok(None) => {
                // unreachable: the invariant says the routed page exists
                proof {
                    assert(page_ok(objects0, ps, i));
                    assert(false);
                }
                return Err(StoreError::MissingPage);
            }
            Ok(Some(d)) => d,
        };
        let mut leaf = match decode_page(&leaf_data) {
            None => {
                // unreachable: the invariant says the routed page decodes
                proof {
                    assert(page_ok(objects0, ps, i));
                    assert(objects0[ps[i].1] == leaf_data@);
                    let pw = choose|pw: PageView|
                        objects0[ps[i].1] == enc_page(pw) && #[trigger] page_wf(pw);
                    assert(page_wf(pw) && leaf_data@ == enc_page(pw));
                    assert(false);
                }
                return Err(StoreError::Corrupt);
            }
            Some(p) => p,
        };
        proof {
            lemma_decoded_page_is(leaf_data@, leaf@);
            assert(page_ok(objects0, ps, i));
            assert(objects0[ps[i].1] == leaf_data@);
            assert(decoded_page(objects0[ps[i].1]) == leaf@);
        }
        let ghost leaf0 = leaf@;
        let ret = if let Some(v) = value {
            kv_put(&mut leaf.kvs, key, v)
        } else {
            kv_remove(&mut leaf.kvs, &key)
        };
        proof {
            assert(leaf@.lo == leaf0.lo);
            assert(leaf@.hi == leaf0.hi);
            lemma_vec_kv_lens(&leaf.kvs);
            assert(page_wf(leaf@));
        }
        let new_bytes = encode_page(&leaf);
        let ghost nb = new_bytes@;
        let mut batch: Vec<(u64, Option<Vec<u8>>)> = Vec::new();
        batch.push((object_id, Some(new_bytes)));
        match self.heap.write_batch(batch) {
            Err(_) => {
                proof {
                    assert(self.heap.objects() == objects0);
                    assert(self.content() == old(self).content());
                }
                return Err(StoreError::Heap);
            }
            Ok(()) => {}
        }
        proof {
            assert(self.heap.objects() =~= objects0.insert(ps[i].1, nb)) by {
                let b0 = seq![(object_id, Option::Some(nb))];
                assert(batch_view(batch@) =~~= b0);
                assert(b0.drop_last() =~~= Seq::<(u64, Option<Seq<u8>>)>::empty());
                assert(apply_batch(objects0, Seq::<(u64, Option<Seq<u8>>)>::empty()) == objects0);
                assert(b0.last() == (object_id, Option::Some(nb)));
                assert(apply_batch(objects0, b0) == apply_batch(objects0, b0.drop_last()).insert(
                    object_id,
                    nb,
                ));
                assert(apply_batch(objects0, b0) == objects0.insert(object_id, nb));
            }
            lemma_wf_after_page_write(ps, self.index@, objects0, self.heap.objects(), i, key@,
                leaf0, leaf@);
            assert(INDEX_OBJECT_ID < ps[i].1);
            assert(self.heap.objects()[INDEX_OBJECT_ID] == objects0[INDEX_OBJECT_ID]);
            assert(self.wf());
            assert(self.heap.objects() == objects0.insert(ps[i].1, nb));
            lemma_blocks_after_page_write(ps, objects0, self.heap.objects(), i, key@, vv,
                leaf0, leaf@);
        }
        proof {
            assert(self.heap_objects() == old(self).heap_objects().insert(
                old(self).routing().pages[route(old(self).routing().pages, key@)].1,
                nb,
            ));
        }
        let stats = self.heap.stats();
        if compaction_due(&stats) {
            match self.heap.maintenance() {
                Err(_) => {
                    proof {
                        assert(self.heap_objects() == old(self).heap_objects().insert(
                            old(self).routing().pages[route(old(self).routing().pages, key@)].1,
                            nb,
                        ));
                    }
                    return Err(StoreError::Heap);
                }
                Ok(()) => {}
            }
        }
        proof {
            assert(self.heap_objects() == old(self).heap_objects().insert(
                old(self).routing().pages[route(old(self).routing().pages, key@)].1,
                nb,
            ));
        }
        Ok(ret)
    }
}

/// After one owning page is rewritten with the same low bound and with
/// keys it still owns, the store invariant holds again.
proof fn lemma_wf_after_page_write(
    ps: Seq<(Seq<u8>, u64)>,
    iv: IndexView,
    objects0: Map<u64, Seq<u8>>,
    objects1: Map<u64, Seq<u8>>,
    i: int,
    key: Seq<u8>,
    leaf0: PageView,
    leaf1: PageView,
)
    requires
        iv.pages == ps,
        index_wf(iv),
        forall|a: int| 0 <= a < ps.len() ==> page_ok(objects0, ps, a),
        covers(ps, i, key),
        decoded_page(objects0[ps[i].1]) == leaf0,
        objects0[ps[i].1] == enc_page(leaf0),
        page_wf(leaf0),
        page_wf(leaf1),
        leaf1.lo == leaf0.lo,
        objects1 == objects0.insert(ps[i].1, enc_page(leaf1)),
        forall|j: int|
            0 <= j < leaf1.kvs.len() ==> (#[trigger] leaf1.kvs[j]) == (key, leaf1.kvs[j].1)
                || exists|j2: int| 0 <= j2 < leaf0.kvs.len() && (#[trigger] leaf0.kvs[j2])
                == leaf1.kvs[j],
    ensures
        forall|a: int| 0 <= a < ps.len() ==> page_ok(objects1, ps, a),
{
    lemma_decoded_page_is(enc_page(leaf1), leaf1);
    assert forall|a: int| 0 <= a < ps.len() implies page_ok(objects1, ps, a) by {
        assert(page_ok(objects0, ps, a));
        if a == i {
            assert(objects1[ps[i].1] == enc_page(leaf1));
            assert(decoded_page(objects1[ps[i].1]) == leaf1);
            assert(decoded_page(objects0[ps[i].1]).lo == ps[i].0);
            assert(leaf1.lo == ps[i].0);
            assert forall|j: int| 0 <= j < leaf1.kvs.len() implies covers(
                ps,
                i,
                (#[trigger] leaf1.kvs[j]).0,
            ) by {
                if leaf1.kvs[j] == (key, leaf1.kvs[j].1) {
                    assert(leaf1.kvs[j].0 == key);
                } else {
                    let j2 = choose|j2: int|
                        0 <= j2 < leaf0.kvs.len() && (#[trigger] leaf0.kvs[j2]) == leaf1.kvs[j];
                    assert(covers(ps, i, leaf0.kvs[j2].0));
                }
            }
        } else {
            assert(ps[a].1 != ps[i].1);
            assert(objects1[ps[a].1] == objects0[ps[a].1]);
            assert(objects1.contains_key(ps[a].1));
        }
    }
}

/// Rewriting the page owning `key` with its map updated at `key`
/// updates the store's content at exactly `key`.
proof fn lemma_blocks_after_page_write(
    ps: Seq<(Seq<u8>, u64)>,
    objects0: Map<u64, Seq<u8>>,
    objects1: Map<u64, Seq<u8>>,
    i: int,
    key: Seq<u8>,
    value: Option<Seq<u8>>,
    leaf0: PageView,
    leaf1: PageView,
)
    requires
        entries_wf(ps),
        covers(ps, i, key),
        decoded_page(objects0[ps[i].1]) == leaf0,
        objects0[ps[i].1] == enc_page(leaf0),
        page_wf(leaf0),
        page_wf(leaf1),
        objects1 == objects0.insert(ps[i].1, enc_page(leaf1)),
        kvs_map(leaf1.kvs) == (match value {
            Option::Some(v) => kvs_map(leaf0.kvs).insert(key, v),
            Option::None => kvs_map(leaf0.kvs).remove(key),
        }),
    ensures
        blocks_of(ps, objects1) == (match value {
            Option::Some(v) => blocks_of(ps, objects0).insert(key, v),
            Option::None => blocks_of(ps, objects0).remove(key),
        }),
        blocks_of(ps, objects0).contains_key(key) == kvs_map(leaf0.kvs).contains_key(key),
        blocks_of(ps, objects0).contains_key(key) ==> blocks_of(ps, objects0)[key] == kvs_map(
            leaf0.kvs,
        )[key],
{
    lemma_decoded_page_is(enc_page(leaf1), leaf1);
    lemma_covers_exists(ps, key);
    lemma_covers_unique(ps, route(ps, key), i, key);
    assert(route(ps, key) == i);
    assert forall|k: Seq<u8>| true implies #[trigger] routed_kvs(ps, objects1, k) == (
        if route(ps, k) == i {
            kvs_map(leaf1.kvs)
        } else {
            routed_kvs(ps, objects0, k)
        }
    ) by {
        lemma_covers_exists(ps, k);
        let rk = route(ps, k);
        if rk == i {
            assert(objects1[ps[i].1] == enc_page(leaf1));
        } else {
            assert(ps[rk].1 != ps[i].1);
            assert(objects1[ps[rk].1] == objects0[ps[rk].1]);
        }
    }
    let b0 = blocks_of(ps, objects0);
    let b1 = blocks_of(ps, objects1);
    match value {
        Option::Some(v) => {
            assert forall|k: Seq<u8>| true implies (b1.contains_key(k) == b0.insert(
                key,
                v,
            ).contains_key(k) && (b1.contains_key(k) ==> b1[k] == b0.insert(key, v)[k])) by {
                if k == key {
                    assert(routed_kvs(ps, objects1, k) == kvs_map(leaf1.kvs));
                    assert(kvs_map(leaf1.kvs).contains_key(key));
                } else {
                    if route(ps, k) == i {
                        assert(routed_kvs(ps, objects0, k) == kvs_map(leaf0.kvs));
                    }
                }
            }
            assert(b1 =~= b0.insert(key, v));
        }
        Option::None => {
            assert forall|k: Seq<u8>| true implies (b1.contains_key(k) == b0.remove(
                key,
            ).contains_key(k) && (b1.contains_key(k) ==> b1[k] == b0.remove(key)[k])) by {
                if k == key {
                    assert(routed_kvs(ps, objects1, k) == kvs_map(leaf1.kvs));
                } else {
                    if route(ps, k) == i {
                        assert(routed_kvs(ps, objects0, k) == kvs_map(leaf0.kvs));
                    }
                }
            }
            assert(b1 =~= b0.remove(key));
        }
    }
    assert(routed_kvs(ps, objects0, key) == kvs_map(leaf0.kvs));
}

impl<H: Heap> Blockstore for Quarry<H> {
    open spec fn inv(&self) -> bool {
        self.wf()
    }

    open spec fn blocks(&self) -> Map<Seq<u8>, Seq<u8>> {
        self.content()
    }

    fn get(&self, k: &BlockCid) -> (r: Result<Option<Vec<u8>>, StoreError>)
        ensures
            r matches Err(e) ==> e == StoreError::Heap,
    {
        let kd = k.to_bytes();
        let ghost ps = self.index@.pages;
        proof {
            lemma_covers_exists(ps, kd@);
        }
        let ghost i = route(ps, kd@);
        let object_id = self.pid_for_key(&kd);
        let page_data = match self.heap.read(object_id) {
            Err(_) => {
                return Err(StoreError::Heap);
            }
            Ok(None) => {
                // unreachable: the invariant says the routed page exists
                proof {
                    assert(page_ok(self.heap.objects(), ps, i));
                    assert(false);
                }
                return Err(StoreError::MissingPage);
            }
            Ok(Some(d)) => d,
        };
        let page = match decode_page(&page_data) {
            None => {
                // unreachable: the invariant says the routed page decodes
                proof {
                    assert(page_ok(self.heap.objects(), ps, i));
                    assert(self.heap.objects()[ps[i].1] == page_data@);
                    let pw = choose|pw: PageView|
                        self.heap.objects()[ps[i].1] == enc_page(pw) && #[trigger] page_wf(pw);
                    assert(page_wf(pw) && page_data@ == enc_page(pw));
                    assert(false);
                }
                return Err(StoreError::Corrupt);
            }
            Some(p) => p,
        };
        proof {
            lemma_decoded_page_is(page_data@, page@);
            assert(page_ok(self.heap.objects(), ps, i));
            assert(decoded_page(self.heap.objects()[ps[i].1]) == page@);
            assert(routed_kvs(ps, self.heap.objects(), kd@) == kvs_map(page@.kvs));
        }
        let r = kv_get(&page.kvs, &kd);
        proof {
            match r {
                Some(ref v) => {
                    assert(self.content().contains_key(kd@));
                    assert(self.content()[kd@] == v@);
                }
                None => {
                    assert(!self.content().contains_key(kd@));
                }
            }
        }
        Ok(r)
    }

    fn has(&self, k: &BlockCid) -> (r: Result<bool, StoreError>)
        ensures
            r matches Err(e) ==> e == StoreError::Heap,
    {
        match self.get(k) {
            Ok(o) => Ok(o.is_some()),
            Err(e) => Err(e),
        }
    }

    fn put_keyed(&mut self, k: &BlockCid, block: &[u8]) -> (r: Result<(), StoreError>)
        ensures
            final(self).routing() == old(self).routing(),
            final(self).routing().pages.len() >= 1,
            index_enc_wf(final(self).routing()),
            final(self).heap_objects().contains_key(INDEX_OBJECT_ID),
            final(self).heap_objects()[INDEX_OBJECT_ID] == enc_index(final(self).routing()),
            final(self).content() == blocks_of(
                final(self).routing().pages,
                final(self).heap_objects(),
            ),
            r matches Err(e) ==> e == StoreError::Heap,
    {
        let kd = k.to_bytes();
        let payload = slice_to_vec(block);
        let r = self.mutate(kd, Some(payload));
        proof {
            vstd::std_specs::vec::axiom_spec_len(&self.index.pages);
            assert(index_enc_wf(self.index@)) by {
                assert(entries_wf(self.index@.pages));
            }
        }
        match r {
            Ok(_) => Ok(()),
            Err(e) => Err(e),
        }
    }

    fn delete_block(&mut self, k: &BlockCid) -> (r: Result<(), StoreError>)
        ensures
            final(self).routing() == old(self).routing(),
            final(self).routing().pages.len() >= 1,
            index_enc_wf(final(self).routing()),
            final(self).heap_objects().contains_key(INDEX_OBJECT_ID),
            final(self).heap_objects()[INDEX_OBJECT_ID] == enc_index(final(self).routing()),
            final(self).content() == blocks_of(
                final(self).routing().pages,
                final(self).heap_objects(),
            ),
            r matches Err(e) ==> e == StoreError::Heap,
    {
        let kd = k.to_bytes();
        let r = self.mutate(kd, None);
        proof {
            vstd::std_specs::vec::axiom_spec_len(&self.index.pages);
            assert(index_enc_wf(self.index@)) by {
                assert(entries_wf(self.index@.pages));
            }
        }
        match r {
            Ok(_) => Ok(()),
            Err(e) => Err(e),
        }
    }
}

} // verus!
