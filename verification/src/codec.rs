//! The compact, declaration-order binary record encoding used to persist
//! the routing index and the pages as opaque heap objects. Fixed-width
//! little-endian lengths prefix every variable-length field, so an
//! encoded record determines the record: the prefix-injectivity lemmas
//! here let the store recover, from bytes it reads back, exactly the
//! value it once wrote. This encoding is never interchanged with the
//! DAG descriptor encoding.

use vstd::prelude::*;

verus! {

/// Eight little-endian bytes of `v`.
pub open spec fn enc_u64(v: u64) -> Seq<u8> {
    seq![
        v as u8,
        (v >> 8) as u8,
        (v >> 16) as u8,
        (v >> 24) as u8,
        (v >> 32) as u8,
        (v >> 40) as u8,
        (v >> 48) as u8,
        (v >> 56) as u8,
    ]
}

/// A length-prefixed byte string.
pub open spec fn enc_bytes(b: Seq<u8>) -> Seq<u8> {
    enc_u64(b.len() as u64) + b
}

/// An optional byte string: a presence tag, then the string when present.
pub open spec fn enc_opt_bytes(o: Option<Seq<u8>>) -> Seq<u8> {
    match o {
        Option::None => seq![0u8],
        Option::Some(b) => seq![1u8] + enc_bytes(b),
    }
}

/// Key-value records, each a pair of length-prefixed byte strings,
/// laid end to end.
pub open spec fn enc_kv_list(s: Seq<(Seq<u8>, Seq<u8>)>) -> Seq<u8>
    decreases s.len(),
{
    if s.len() == 0 {
        Seq::empty()
    } else {
        enc_bytes(s[0].0) + enc_bytes(s[0].1) + enc_kv_list(s.skip(1))
    }
}

pub proof fn lemma_enc_u64_inj(a: u64, b: u64)
    requires
        enc_u64(a) == enc_u64(b),
    ensures
        a == b,
{
    assert(enc_u64(a)[0] == enc_u64(b)[0]);
    assert(enc_u64(a)[1] == enc_u64(b)[1]);
    assert(enc_u64(a)[2] == enc_u64(b)[2]);
    assert(enc_u64(a)[3] == enc_u64(b)[3]);
    assert(enc_u64(a)[4] == enc_u64(b)[4]);
    assert(enc_u64(a)[5] == enc_u64(b)[5]);
    assert(enc_u64(a)[6] == enc_u64(b)[6]);
    assert(enc_u64(a)[7] == enc_u64(b)[7]);
    assert(a == b) by (bit_vector)
        requires
            a as u8 == b as u8,
            (a >> 8) as u8 == (b >> 8) as u8,
            (a >> 16) as u8 == (b >> 16) as u8,
            (a >> 24) as u8 == (b >> 24) as u8,
            (a >> 32) as u8 == (b >> 32) as u8,
            (a >> 40) as u8 == (b >> 40) as u8,
            (a >> 48) as u8 == (b >> 48) as u8,
            (a >> 56) as u8 == (b >> 56) as u8,
    ;
}

/// Two eight-byte length prefixes at the head of equal streams agree.
pub proof fn lemma_enc_u64_prefix_inj(a: u64, b: u64, r1: Seq<u8>, r2: Seq<u8>)
    requires
        enc_u64(a) + r1 == enc_u64(b) + r2,
    ensures
        a == b,
        r1 == r2,
{
    assert(enc_u64(a) =~= (enc_u64(a) + r1).take(8));
    assert(enc_u64(b) =~= (enc_u64(b) + r2).take(8));
    lemma_enc_u64_inj(a, b);
    assert(r1 =~= (enc_u64(a) + r1).skip(8));
    assert(r2 =~= (enc_u64(b) + r2).skip(8));
}

/// A length-prefixed byte string at the head of equal streams is the
/// same string, and what follows agrees too.
pub proof fn lemma_enc_bytes_prefix_inj(x: Seq<u8>, y: Seq<u8>, r1: Seq<u8>, r2: Seq<u8>)
    requires
        enc_bytes(x) + r1 == enc_bytes(y) + r2,
        x.len() < 0x1_0000_0000_0000_0000,
        y.len() < 0x1_0000_0000_0000_0000,
    ensures
        x == y,
        r1 == r2,
{
    assert(enc_bytes(x) + r1 =~= enc_u64(x.len() as u64) + (x + r1));
    assert(enc_bytes(y) + r2 =~= enc_u64(y.len() as u64) + (y + r2));
    lemma_enc_u64_prefix_inj(x.len() as u64, y.len() as u64, x + r1, y + r2);
    assert(x.len() == y.len());
    assert(x =~= (x + r1).take(x.len() as int));
    assert(y =~= (y + r2).take(x.len() as int));
    assert(r1 =~= (x + r1).skip(x.len() as int));
    assert(r2 =~= (y + r2).skip(x.len() as int));
}

/// An optional byte string at the head of equal streams agrees.
pub proof fn lemma_enc_opt_bytes_prefix_inj(
    x: Option<Seq<u8>>,
    y: Option<Seq<u8>>,
    r1: Seq<u8>,
    r2: Seq<u8>,
)
    requires
        enc_opt_bytes(x) + r1 == enc_opt_bytes(y) + r2,
        x matches Option::Some(b) ==> b.len() < 0x1_0000_0000_0000_0000,
        y matches Option::Some(b) ==> b.len() < 0x1_0000_0000_0000_0000,
    ensures
        x == y,
        r1 == r2,
{
    assert((enc_opt_bytes(x) + r1)[0] == (enc_opt_bytes(y) + r2)[0]);
    assert(x is None ==> (enc_opt_bytes(x) + r1)[0] == 0u8);
    assert(x is Some ==> (enc_opt_bytes(x) + r1)[0] == 1u8);
    assert(y is None ==> (enc_opt_bytes(y) + r2)[0] == 0u8);
    assert(y is Some ==> (enc_opt_bytes(y) + r2)[0] == 1u8);
    match (x, y) {
        (Option::None, Option::None) => {
            assert(r1 =~= (enc_opt_bytes(x) + r1).skip(1));
            assert(r2 =~= (enc_opt_bytes(y) + r2).skip(1));
        }
        (Option::Some(bx), Option::Some(by)) => {
            assert(enc_bytes(bx) + r1 =~= (enc_opt_bytes(x) + r1).skip(1));
            assert(enc_bytes(by) + r2 =~= (enc_opt_bytes(y) + r2).skip(1));
            lemma_enc_bytes_prefix_inj(bx, by, r1, r2);
        }
        (Option::None, Option::Some(by)) => {
        }
        (Option::Some(bx), Option::None) => {
        }
    }
}

/// A byte string whose length fits the eight-byte length prefix.
pub open spec fn len_ok(b: Seq<u8>) -> bool {
    b.len() < 0x1_0000_0000_0000_0000
}

/// Every byte-string length in a key-value list fits the length prefix.
pub open spec fn kv_lens_ok(s: Seq<(Seq<u8>, Seq<u8>)>) -> bool {
    forall|i: int|
        0 <= i < s.len() ==> #[trigger] s[i].0.len() < 0x1_0000_0000_0000_0000
            && s[i].1.len() < 0x1_0000_0000_0000_0000
}

/// Equal-length key-value lists at the head of equal streams agree.
pub proof fn lemma_enc_kv_list_prefix_inj(
    s1: Seq<(Seq<u8>, Seq<u8>)>,
    s2: Seq<(Seq<u8>, Seq<u8>)>,
    r1: Seq<u8>,
    r2: Seq<u8>,
)
    requires
        enc_kv_list(s1) + r1 == enc_kv_list(s2) + r2,
        s1.len() == s2.len(),
        kv_lens_ok(s1),
        kv_lens_ok(s2),
    ensures
        s1 == s2,
        r1 == r2,
    decreases s1.len(),
{
    if s1.len() == 0 {
        assert(enc_kv_list(s1) + r1 =~= r1);
        assert(enc_kv_list(s2) + r2 =~= r2);
    } else {
        let t1 = enc_bytes(s1[0].1) + (enc_kv_list(s1.skip(1)) + r1);
        let t2 = enc_bytes(s2[0].1) + (enc_kv_list(s2.skip(1)) + r2);
        assert(enc_kv_list(s1) + r1 =~= enc_bytes(s1[0].0) + t1);
        assert(enc_kv_list(s2) + r2 =~= enc_bytes(s2[0].0) + t2);
        lemma_enc_bytes_prefix_inj(s1[0].0, s2[0].0, t1, t2);
        lemma_enc_bytes_prefix_inj(
            s1[0].1,
            s2[0].1,
            enc_kv_list(s1.skip(1)) + r1,
            enc_kv_list(s2.skip(1)) + r2,
        );
        assert(kv_lens_ok(s1.skip(1))) by {
            assert(forall|i: int|
                0 <= i < s1.skip(1).len() ==> #[trigger] s1.skip(1)[i] == s1[i + 1]);
        }
        assert(kv_lens_ok(s2.skip(1))) by {
            assert(forall|i: int|
                0 <= i < s2.skip(1).len() ==> #[trigger] s2.skip(1)[i] == s2[i + 1]);
        }
        lemma_enc_kv_list_prefix_inj(s1.skip(1), s2.skip(1), r1, r2);
        assert(s1 =~= seq![s1[0]] + s1.skip(1));
        assert(s2 =~= seq![s2[0]] + s2.skip(1));
    }
}

/// Appending one record extends the encoded list by that record.
pub proof fn lemma_enc_kv_list_push(s: Seq<(Seq<u8>, Seq<u8>)>, kv: (Seq<u8>, Seq<u8>))
    ensures
        enc_kv_list(s.push(kv)) == enc_kv_list(s) + enc_bytes(kv.0) + enc_bytes(kv.1),
    decreases s.len(),
{
    if s.len() == 0 {
        assert(s.push(kv)[0] == kv);
        assert(s.push(kv).skip(1) =~= Seq::<(Seq<u8>, Seq<u8>)>::empty());
        assert(enc_kv_list(s.push(kv)) == enc_bytes(kv.0) + enc_bytes(kv.1) + enc_kv_list(
            s.push(kv).skip(1),
        ));
        assert(enc_kv_list(s.push(kv).skip(1)) =~= Seq::<u8>::empty());
        assert(enc_kv_list(s) =~= Seq::<u8>::empty());
        assert(enc_kv_list(s.push(kv)) =~= enc_kv_list(s) + enc_bytes(kv.0) + enc_bytes(kv.1));
    } else {
        assert(s.push(kv)[0] == s[0]);
        assert(s.push(kv).skip(1) =~= s.skip(1).push(kv));
        lemma_enc_kv_list_push(s.skip(1), kv);
        assert(enc_kv_list(s.push(kv)) == enc_bytes(s[0].0) + enc_bytes(s[0].1) + (enc_kv_list(
            s.skip(1),
        ) + enc_bytes(kv.0) + enc_bytes(kv.1)));
        assert(enc_kv_list(s.push(kv)) =~= enc_kv_list(s) + enc_bytes(kv.0) + enc_bytes(kv.1));
    }
}

/// Appends the eight little-endian bytes of `v`.
pub fn push_u64(out: &mut Vec<u8>, v: u64)
    ensures
        final(out)@ == old(out)@ + enc_u64(v),
{
    out.push(v as u8);
    out.push((v >> 8) as u8);
    out.push((v >> 16) as u8);
    out.push((v >> 24) as u8);
    out.push((v >> 32) as u8);
    out.push((v >> 40) as u8);
    out.push((v >> 48) as u8);
    out.push((v >> 56) as u8);
    proof {
        assert(out@ =~= old(out)@ + enc_u64(v));
    }
}

/// Appends a length-prefixed byte string.
pub fn push_bytes(out: &mut Vec<u8>, b: &Vec<u8>)
    ensures
        final(out)@ == old(out)@ + enc_bytes(b@),
{
    push_u64(out, b.len() as u64);
    let mut i: usize = 0;
    while i < b.len()
        invariant
            i <= b.len(),
            out@ == old(out)@ + enc_u64(b@.len() as u64) + b@.take(i as int),
        decreases b.len() - i,
    {
        out.push(b[i]);
        proof {
            assert(b@.take(i + 1) =~= b@.take(i as int).push(b@[i as int]));
            assert(out@ =~= old(out)@ + enc_u64(b@.len() as u64) + b@.take(i + 1));
        }
        i = i + 1;
    }
    proof {
        assert(b@.take(b@.len() as int) =~= b@);
        assert(out@ =~= old(out)@ + enc_bytes(b@));
    }
}

/// Appends an optional byte string behind its presence tag.
pub fn push_opt_bytes(out: &mut Vec<u8>, o: &Option<Vec<u8>>)
    ensures
        final(out)@ == old(out)@ + enc_opt_bytes(match o {
            Option::None => Option::None,
            Option::Some(b) => Option::Some(b@),
        }),
{
    match o {
        Option::None => {
            out.push(0u8);
            proof {
                assert(out@ =~= old(out)@ + seq![0u8]);
            }
        }
        Option::Some(b) => {
            out.push(1u8);
            proof {
                assert(out@ =~= old(out)@ + seq![1u8]);
            }
            push_bytes(out, b);
            proof {
                assert(out@ =~= old(out)@ + (seq![1u8] + enc_bytes(b@)));
            }
        }
    }
}

/// The view of an optional byte payload.
pub open spec fn opt_bytes_view(o: Option<Vec<u8>>) -> Option<Seq<u8>> {
    match o {
        Option::Some(v) => Option::Some(v@),
        Option::None => Option::None,
    }
}

/// Reads the eight little-endian bytes at `i` as a number: whatever
/// number was encoded there is read back exactly.
pub fn read_u64(s: &Vec<u8>, i: usize) -> (r: Option<(u64, usize)>)
    ensures
        r matches Option::Some(p) ==> i < p.1 <= s@.len(),
        forall|v: u64, rest: Seq<u8>|
            #![trigger enc_u64(v) + rest]
            i <= s@.len() && s@.skip(i as int) == enc_u64(v) + rest ==> r == Option::Some(
                (v, (i + 8) as usize),
            ),
{
    if i >= s.len() || s.len() - i < 8 {
        proof {
            assert forall|v: u64, rest: Seq<u8>|
                !(i <= s@.len() && s@.skip(i as int) == enc_u64(v) + rest) by {
                if i <= s@.len() {
                    assert((enc_u64(v) + rest).len() >= 8);
                    assert(s@.skip(i as int).len() < 8);
                }
            }
        }
        return Option::None;
    }
    let b0 = s[i];
    let b1 = s[i + 1];
    let b2 = s[i + 2];
    let b3 = s[i + 3];
    let b4 = s[i + 4];
    let b5 = s[i + 5];
    let b6 = s[i + 6];
    let b7 = s[i + 7];
    let v: u64 = (b0 as u64) | ((b1 as u64) << 8) | ((b2 as u64) << 16) | ((b3 as u64) << 24) | ((
    b4 as u64) << 32) | ((b5 as u64) << 40) | ((b6 as u64) << 48) | ((b7 as u64) << 56);
    proof {
        assert forall|w: u64, rest: Seq<u8>|
            s@.skip(i as int) == enc_u64(w) + rest implies v == w by {
            assert(s@.skip(i as int)[0] == (enc_u64(w) + rest)[0]);
            assert(s@.skip(i as int)[1] == (enc_u64(w) + rest)[1]);
            assert(s@.skip(i as int)[2] == (enc_u64(w) + rest)[2]);
            assert(s@.skip(i as int)[3] == (enc_u64(w) + rest)[3]);
            assert(s@.skip(i as int)[4] == (enc_u64(w) + rest)[4]);
            assert(s@.skip(i as int)[5] == (enc_u64(w) + rest)[5]);
            assert(s@.skip(i as int)[6] == (enc_u64(w) + rest)[6]);
            assert(s@.skip(i as int)[7] == (enc_u64(w) + rest)[7]);
            assert(b0 == w as u8);
            assert(b1 == (w >> 8) as u8);
            assert(b2 == (w >> 16) as u8);
            assert(b3 == (w >> 24) as u8);
            assert(b4 == (w >> 32) as u8);
            assert(b5 == (w >> 40) as u8);
            assert(b6 == (w >> 48) as u8);
            assert(b7 == (w >> 56) as u8);
            assert(v == w) by (bit_vector)
                requires
                    v == (b0 as u64) | ((b1 as u64) << 8) | ((b2 as u64) << 16) | ((b3 as u64)
                        << 24) | ((b4 as u64) << 32) | ((b5 as u64) << 40) | ((b6 as u64) << 48)
                        | ((b7 as u64) << 56),
                    b0 == w as u8,
                    b1 == (w >> 8) as u8,
                    b2 == (w >> 16) as u8,
                    b3 == (w >> 24) as u8,
                    b4 == (w >> 32) as u8,
                    b5 == (w >> 40) as u8,
                    b6 == (w >> 48) as u8,
                    b7 == (w >> 56) as u8,
            ;
        }
    }
    Option::Some((v, i + 8))
}

/// Reads a length-prefixed byte string at `i`: whatever string was
/// encoded there is read back exactly.
pub fn read_bytes(s: &Vec<u8>, i: usize) -> (r: Option<(Vec<u8>, usize)>)
    ensures
        r matches Option::Some(p) ==> i < p.1 <= s@.len(),
        forall|b: Seq<u8>, rest: Seq<u8>|
            #![trigger enc_bytes(b) + rest]
            i <= s@.len() && s@.skip(i as int) == enc_bytes(b) + rest && b.len()
                < 0x1_0000_0000_0000_0000 ==> (r matches Option::Some(p) && p.0@ == b && p.1 == i
                + 8 + b.len()),
{
    let ghost hyp = i <= s@.len() && exists|b: Seq<u8>, rest: Seq<u8>|
        s@.skip(i as int) == enc_bytes(b) + rest && b.len() < 0x1_0000_0000_0000_0000;
    let ghost (hb, hrest): (Seq<u8>, Seq<u8>) = if hyp {
        choose|b: Seq<u8>, rest: Seq<u8>|
            s@.skip(i as int) == enc_bytes(b) + rest && b.len() < 0x1_0000_0000_0000_0000
    } else {
        (Seq::empty(), Seq::empty())
    };
    proof {
        if hyp {
            assert(s@.skip(i as int) =~= enc_u64(hb.len() as u64) + (hb + hrest));
        }
    }
    let (n, j) = match read_u64(s, i) {
        Option::Some(p) => p,
        Option::None => {
            proof {
                if hyp {
                    assert(false);
                }
            }
            return Option::None;
        }
    };
    proof {
        if hyp {
            assert(n == hb.len() as u64);
        }
    }
    let slen: usize = s.len();
    let avail: usize = slen - j;
    if n > avail as u64 {
        proof {
            if hyp {
                assert(s@.skip(i as int).len() == 8 + hb.len() + hrest.len());
                assert(false);
            }
        }
        return Option::None;
    }
    assert(n <= avail);
    let n: usize = n as usize;
    let mut out: Vec<u8> = Vec::new();
    let mut k: usize = 0;
    while k < n
        invariant
            slen == s@.len(),
            j + n <= slen,
            k <= n,
            out@ == s@.subrange(j as int, j + k),
        decreases n - k,
    {
        assert(j + k < slen);
        out.push(s[j + k]);
        proof {
            assert(out@ =~= s@.subrange(j as int, j + k + 1));
        }
        k = k + 1;
    }
    proof {
        if hyp {
            assert(j == i + 8);
            assert(n == hb.len());
            assert forall|t: int| 0 <= t < n implies s@[j + t] == hb[t] by {
                assert(s@.skip(i as int)[8 + t] == (enc_u64(hb.len() as u64) + (hb + hrest))[8
                    + t]);
            }
            assert(out@ =~= hb);
        }
        assert forall|b: Seq<u8>, rest: Seq<u8>|
            i <= s@.len() && s@.skip(i as int) == enc_bytes(b) + rest && b.len()
                < 0x1_0000_0000_0000_0000 implies (out@ == b && j + n == i + 8 + b.len()) by {
            assert(hyp);
            assert(s@.skip(i as int) =~= enc_u64(b.len() as u64) + (b + rest));
            lemma_enc_u64_prefix_inj(b.len() as u64, hb.len() as u64, b + rest, hb + hrest);
            assert(b.len() == hb.len());
            assert(b =~= (b + rest).take(b.len() as int));
            assert(hb =~= (hb + hrest).take(hb.len() as int));
        }
    }
    Option::Some((out, j + n))
}

/// Reads an optional byte string at `i`: whatever optional string was
/// encoded there is read back exactly.
pub fn read_opt_bytes(s: &Vec<u8>, i: usize) -> (r: Option<(Option<Vec<u8>>, usize)>)
    ensures
        r matches Option::Some(p) ==> i < p.1 <= s@.len(),
        forall|o: Option<Seq<u8>>, rest: Seq<u8>|
            #![trigger enc_opt_bytes(o) + rest]
            i <= s@.len() && s@.skip(i as int) == enc_opt_bytes(o) + rest && (o matches
                Option::Some(b) ==> b.len() < 0x1_0000_0000_0000_0000) ==> (r matches
                Option::Some(p) && opt_bytes_view(p.0) == o && p.1 == i + enc_opt_bytes(o).len()),
{
    if i >= s.len() {
        proof {
            assert forall|o: Option<Seq<u8>>, rest: Seq<u8>|
                !(i <= s@.len() && s@.skip(i as int) == enc_opt_bytes(o) + rest) by {
                if i <= s@.len() {
                    assert((enc_opt_bytes(o) + rest).len() >= 1);
                    assert(s@.skip(i as int).len() == 0);
                }
            }
        }
        return Option::None;
    }
    let tag = s[i];
    proof {
        assert(s@.skip(i as int)[0] == tag);
        assert forall|o: Option<Seq<u8>>, rest: Seq<u8>|
            s@.skip(i as int) == enc_opt_bytes(o) + rest implies ((o is None <==> tag == 0) && (
        o is Some <==> tag == 1)) by {
            assert((enc_opt_bytes(o) + rest)[0] == if o is None {
                0u8
            } else {
                1u8
            });
        }
    }
    if tag == 0 {
        Option::Some((Option::None, i + 1))
    } else if tag == 1 {
        proof {
            assert forall|o: Option<Seq<u8>>, rest: Seq<u8>|
                s@.skip(i as int) == enc_opt_bytes(o) + rest && o is Some implies s@.skip(i + 1)
                == enc_bytes(o.unwrap()) + rest by {
                assert(s@.skip(i + 1) =~= s@.skip(i as int).skip(1));
                assert(s@.skip(i as int).skip(1) =~= enc_bytes(o.unwrap()) + rest);
            }
        }
        match read_bytes(s, i + 1) {
            Option::Some((b, j)) => Option::Some((Option::Some(b), j)),
            Option::None => {
                proof {
                    assert forall|o: Option<Seq<u8>>, rest: Seq<u8>|
                        !(i <= s@.len() && s@.skip(i as int) == enc_opt_bytes(o) + rest && (
                        o matches Option::Some(b) ==> b.len() < 0x1_0000_0000_0000_0000)) by {
                        if i <= s@.len() && s@.skip(i as int) == enc_opt_bytes(o) + rest && (
                        o matches Option::Some(b) ==> b.len() < 0x1_0000_0000_0000_0000) {
                            let b = o.unwrap();
                            assert(s@.skip(i + 1) =~= s@.skip(i as int).skip(1));
                            assert(s@.skip(i as int).skip(1) =~= enc_bytes(b) + rest);
                        }
                    }
                }
                Option::None
            }
        }
    } else {
        Option::None
    }
}

} // verus!
