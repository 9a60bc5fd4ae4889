//! The peer-transfer path: a serving peer announces `TOTAL_CHUNKS:<n>`,
//! then sends each chunk as `<index:u32 BE><bytes>` until it is
//! acknowledged with `ACK:<index>`. The fetching side may take chunks in
//! any order: it slots each into place, refuses duplicates and stray
//! indices with `NACK:<index>`, and reassembles once nothing is missing.

use vstd::prelude::*;

use crate::bytes::tail_from;

verus! {

/// How many of the slots are still empty.
pub open spec fn none_count(s: Seq<Option<Vec<u8>>>) -> nat
    decreases s.len(),
{
    if s.len() == 0 {
        0
    } else {
        none_count(s.drop_last()) + if s.last() is None {
            1nat
        } else {
            0nat
        }
    }
}

/// The filled slots, in index order, as one byte blob.
pub open spec fn concat_parts(s: Seq<Option<Vec<u8>>>) -> Seq<u8>
    decreases s.len(),
{
    if s.len() == 0 {
        Seq::empty()
    } else {
        concat_parts(s.drop_last()) + (match s.last() {
            Some(v) => v@,
            None => Seq::empty(),
        })
    }
}

proof fn lemma_none_count_update(s: Seq<Option<Vec<u8>>>, i: int, v: Vec<u8>)
    requires
        0 <= i < s.len(),
        s[i] is None,
    ensures
        none_count(s.update(i, Some(v))) + 1 == none_count(s),
    decreases s.len(),
{
    let t = s.update(i, Some(v));
    if i == s.len() - 1 {
        assert(t.drop_last() =~= s.drop_last());
    } else {
        assert(t.drop_last() =~= s.drop_last().update(i, Some(v)));
        lemma_none_count_update(s.drop_last(), i, v);
        assert(t.last() == s.last());
    }
}

/// The in-progress reassembly of one fetched image.
pub struct Assembly {
    pub parts: Vec<Option<Vec<u8>>>,
    pub missing: usize,
}

impl Assembly {
    /// The missing counter counts the empty slots.
    pub open spec fn wf(&self) -> bool {
        self.missing == none_count(self.parts@)
    }

    /// Start a transfer that was announced as `total` chunks.
    pub fn new(total: usize) -> (r: Assembly)
        ensures
            r.wf(),
            r.parts@.len() == total,
            forall|i: int| 0 <= i < total ==> r.parts@[i] is None,
    {
        let mut parts: Vec<Option<Vec<u8>>> = Vec::new();
        let mut i: usize = 0;
        while i < total
            invariant
                i <= total,
                parts@.len() == i,
                forall|k: int| 0 <= k < i ==> parts@[k] is None,
                none_count(parts@) == i,
            decreases total - i,
        {
            proof {
                assert(parts@.push(None).drop_last() =~= parts@);
            }
            parts.push(None);
            i = i + 1;
        }
        Assembly { parts, missing: total }
    }

    /// Take one incoming chunk. It is accepted — slotted in, one fewer
    /// missing — exactly where its index is in range and not yet filled;
    /// a duplicate or stray index changes nothing. The caller answers
    /// `ACK:<idx>` or `NACK:<idx>` accordingly.
    pub fn on_chunk(&mut self, idx: usize, data: &[u8]) -> (accepted: bool)
        requires
            old(self).wf(),
        ensures
            final(self).wf(),
            accepted <==> idx < old(self).parts@.len() && old(self).parts@[idx as int] is None,
            accepted ==> ({
                &&& final(self).parts@.len() == old(self).parts@.len()
                &&& forall|k: int|
                    0 <= k < old(self).parts@.len() && k != idx ==> final(self).parts@[k] == old(
                        self,
                    ).parts@[k]
                &&& (final(self).parts@[idx as int] matches Some(v) && v@ == data@)
                &&& final(self).missing + 1 == old(self).missing
            }),
            !accepted ==> *final(self) == *old(self),
    {
        if idx >= self.parts.len() {
            return false;
        }
        let filled = self.parts[idx].is_some();
        if filled {
            return false;
        }
        let chunk = tail_from(data, 0);
        proof {
            assert(chunk@ =~= data@);
            lemma_none_count_update(self.parts@, idx as int, chunk);
        }
        self.parts.set(idx, Some(chunk));
        self.missing = self.missing - 1;
        true
    }

    /// Whether every chunk has arrived.
    pub fn is_complete(&self) -> (r: bool)
        ensures
            r == (self.missing == 0),
    {
        self.missing == 0
    }

    /// Concatenate the chunks in index order.
    pub fn assemble(&self) -> (r: Vec<u8>)
        ensures
            r@ == concat_parts(self.parts@),
    {
        let mut out: Vec<u8> = Vec::new();
        let n = self.parts.len();
        let mut i: usize = 0;
        proof {
            assert(concat_parts(self.parts@.take(0)) =~= Seq::<u8>::empty());
        }
        while i < n
            invariant
                n == self.parts@.len(),
                i <= n,
                out@ == concat_parts(self.parts@.take(i as int)),
            decreases n - i,
        {
            proof {
                assert(self.parts@.take(i as int + 1).drop_last() =~= self.parts@.take(i as int));
                assert(self.parts@.take(i as int + 1).last() == self.parts@[i as int]);
            }
            match &self.parts[i] {
                Some(chunk) => {
                    crate::messages::append_slice(&mut out, chunk.as_slice());
                },
                None => {},
            }
            proof {
                assert(out@ =~= concat_parts(self.parts@.take(i as int + 1)));
            }
            i = i + 1;
        }
        proof {
            assert(self.parts@.take(n as int) =~= self.parts@);
        }
        out
    }
}

/// Chunk `i` of `payload` when cut into `csize`-byte chunks.
pub open spec fn sized_chunk(payload: Seq<u8>, csize: int, i: int) -> Seq<u8> {
    payload.subrange(
        csize * i,
        if csize * (i + 1) <= payload.len() {
            csize * (i + 1)
        } else {
            payload.len() as int
        },
    )
}

/// Number of `csize`-byte chunks a payload of `len` bytes needs.
pub open spec fn sized_chunks(len: nat, csize: nat) -> nat {
    ((len + csize - 1) / (csize as int)) as nat
}

/// An assembly whose every slot holds its own chunk of `payload`
/// reassembles to exactly `payload`: receiving the chunks in any order
/// loses nothing.
#[verifier::rlimit(80)]
pub proof fn lemma_assembly_exact(payload: Seq<u8>, csize: nat, parts: Seq<Option<Vec<u8>>>)
    requires
        csize >= 1,
        parts.len() == sized_chunks(payload.len(), csize),
        forall|i: int|
            0 <= i < parts.len() ==> ((#[trigger] parts[i]) matches Some(v) && v@ == sized_chunk(
                payload,
                csize as int,
                i,
            )),
    ensures
        concat_parts(parts) == payload,
{
    let n = parts.len() as int;
    vstd::arithmetic::div_mod::lemma_fundamental_div_mod(
        (payload.len() + csize - 1) as int,
        csize as int,
    );
    assert forall|k: int| 0 <= k <= n implies #[trigger] concat_parts(parts.take(k)) == payload.take(
        if csize * k <= payload.len() {
            csize * k
        } else {
            payload.len() as int
        },
    ) by {
        lemma_assembly_take(payload, csize, parts, k);
    }
    assert(parts.take(n) =~= parts);
    assert(payload.len() <= csize * n) by (nonlinear_arith)
        requires
            csize >= 1,
            n == sized_chunks(payload.len(), csize),
            (payload.len() + csize - 1) as int == (csize as int) * n + ((payload.len() + csize
                - 1) as int % (csize as int)),
            0 <= (payload.len() + csize - 1) as int % (csize as int) < csize,
    ;
    assert(payload.take(payload.len() as int) =~= payload);
}

#[verifier::rlimit(80)]
proof fn lemma_assembly_take(payload: Seq<u8>, csize: nat, parts: Seq<Option<Vec<u8>>>, k: int)
    requires
        csize >= 1,
        parts.len() == sized_chunks(payload.len(), csize),
        0 <= k <= parts.len(),
        forall|i: int|
            0 <= i < parts.len() ==> ((#[trigger] parts[i]) matches Some(v) && v@ == sized_chunk(
                payload,
                csize as int,
                i,
            )),
    ensures
        concat_parts(parts.take(k)) == payload.take(
            if csize * k <= payload.len() {
                csize * k
            } else {
                payload.len() as int
            },
        ),
    decreases k,
{
    let c = csize as int;
    let len = payload.len() as int;
    if k == 0 {
        assert(c * 0 == 0) by (nonlinear_arith);
        assert(concat_parts(parts.take(0)) =~= payload.take(0));
    } else {
        lemma_assembly_take(payload, csize, parts, k - 1);
        let n = parts.len() as int;
        vstd::arithmetic::div_mod::lemma_fundamental_div_mod(len + c - 1, c);
        assert((len + c - 1) / c >= 0) by (nonlinear_arith)
            requires
                c >= 1,
                len >= 0,
        ;
        assert(n == (len + c - 1) / c);
        vstd::arithmetic::div_mod::lemma_mod_bound(len + c - 1, c);
        let a = c * (k - 1);
        assert(len + c - 1 == c * n + ((len + c - 1) % c));
        assert(0 <= (len + c - 1) % c < c);
        assert(a + c == c * k) by (nonlinear_arith)
            requires
                a == c * (k - 1),
        ;
        assert(a >= 0) by (nonlinear_arith)
            requires
                c >= 1,
                k >= 1,
                a == c * (k - 1),
        ;
        assert(a <= c * (n - 1)) by (nonlinear_arith)
            requires
                c >= 1,
                1 <= k <= n,
                a == c * (k - 1),
        ;
        assert(c * (n - 1) < len) by (nonlinear_arith)
            requires
                c >= 1,
                n >= 1,
                len + c - 1 == c * n + ((len + c - 1) % c),
                0 <= (len + c - 1) % c < c,
        ;
        assert(a < len);
        let b = if c * k <= len {
            c * k
        } else {
            len
        };
        assert(0 <= a <= b <= len);
        assert(concat_parts(parts.take(k - 1)) == payload.take(a));
        assert(parts.take(k).drop_last() =~= parts.take(k - 1));
        assert(parts.take(k).last() == parts[k - 1]);
        let v = parts[k - 1]->Some_0;
        assert(v@ == payload.subrange(a, b));
        assert(concat_parts(parts.take(k)) == payload.take(a) + payload.subrange(a, b));
        assert(payload.take(a) + payload.subrange(a, b) =~= payload.take(b));
    }
}

} // verus!
