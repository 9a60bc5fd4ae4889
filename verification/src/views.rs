//! View budgets: each received image carries a per-viewer counter, stored
//! as a decimal text file. A view decrements the counter by one; a view on
//! an exhausted or missing counter is refused, and a missing counter file
//! stays missing. `CONTROL_UPDATE` rewrites an existing counter to the
//! value the owner chose.

use vstd::prelude::*;

use crate::bytes::all_digits;
use crate::bytes::dec_repr;
use crate::bytes::dec_value;
use crate::bytes::find_byte;
use crate::bytes::find_byte_spec;
use crate::bytes::head_to;
use crate::bytes::lemma_dec_repr_value;
use crate::bytes::lemma_find_byte_at;
use crate::bytes::parse_u32_dec;
use crate::bytes::tail_from;
use crate::bytes::u32_dec;

verus! {

/// An image identifier `owner_num`, as in `5_0`: image `num` of client
/// `owner`.
#[derive(Clone, Copy, Debug, PartialEq, Eq, Structural)]
pub struct ImageId {
    pub owner: u32,
    pub num: u32,
}

/// The text form `owner_num` of an image id.
pub open spec fn image_id_text(id: ImageId) -> Seq<u8> {
    dec_repr(id.owner as int) + seq![95u8] + dec_repr(id.num as int)
}

/// Write an image id as `owner_num`.
pub fn format_image_id(id: &ImageId) -> (r: Vec<u8>)
    ensures
        r@ == image_id_text(*id),
{
    let mut r = u32_dec(id.owner);
    r.push(95);
    let mut num = u32_dec(id.num);
    r.append(&mut num);
    assert(r@ =~= image_id_text(*id));
    r
}

/// Read an image id `owner_num`: the bytes before the first `_` and the
/// bytes after it must both be decimal numbers that fit in `u32`.
pub fn parse_image_id(s: &[u8]) -> (r: Option<ImageId>)
    ensures
        r matches Some(id) ==> ({
            let k = find_byte_spec(s@, 95);
            &&& k != -1
            &&& s@.take(k).len() > 0
            &&& all_digits(s@.take(k))
            &&& dec_value(s@.take(k)) <= u32::MAX
            &&& s@.skip(k + 1).len() > 0
            &&& all_digits(s@.skip(k + 1))
            &&& dec_value(s@.skip(k + 1)) <= u32::MAX
            &&& id.owner == dec_value(s@.take(k))
            &&& id.num == dec_value(s@.skip(k + 1))
        }),
        r is None ==> ({
            let k = find_byte_spec(s@, 95);
            k == -1 || !(s@.take(k).len() > 0 && all_digits(s@.take(k)) && dec_value(s@.take(k))
                <= u32::MAX) || !(s@.skip(k + 1).len() > 0 && all_digits(s@.skip(k + 1))
                && dec_value(s@.skip(k + 1)) <= u32::MAX)
        }),
{
    let k = match find_byte(s, 95) {
        Some(k) => k,
        None => {
            return None;
        },
    };
    proof {
        crate::bytes::lemma_find_byte(s@, 95);
    }
    let slen = s.len();
    assert(k < slen);
    let left = head_to(s, k);
    let right = tail_from(s, k + 1);
    let owner = match parse_u32_dec(left.as_slice()) {
        Some(v) => v,
        None => {
            return None;
        },
    };
    let num = match parse_u32_dec(right.as_slice()) {
        Some(v) => v,
        None => {
            return None;
        },
    };
    Some(ImageId { owner, num })
}

/// Writing an image id and reading it back gives the same id.
pub proof fn lemma_image_id_roundtrip(id: ImageId)
    ensures
        find_byte_spec(image_id_text(id), 95) == dec_repr(id.owner as int).len(),
        dec_value(image_id_text(id).take(dec_repr(id.owner as int).len() as int)) == id.owner,
        dec_value(image_id_text(id).skip(dec_repr(id.owner as int).len() as int + 1)) == id.num,
{
    let s = image_id_text(id);
    let o = dec_repr(id.owner as int);
    let n = dec_repr(id.num as int);
    lemma_dec_repr_value(id.owner as int);
    lemma_dec_repr_value(id.num as int);
    assert(s[o.len() as int] == 95);
    assert(forall|j: int| 0 <= j < o.len() ==> s[j] == o[j]);
    lemma_find_byte_at(s, 95, o.len() as int);
    assert(s.take(o.len() as int) =~= o);
    assert(s.skip(o.len() as int + 1) =~= n);
}

/// The view-budget store a client holds on disk, one counter per image.
pub struct ViewStore {
    pub entries: Vec<(ImageId, u32)>,
}

/// The store read as a map from image id to remaining views; later entries
/// win, and under [`ViewStore::wf`] each id appears once.
pub open spec fn store_map(s: Seq<(ImageId, u32)>) -> Map<ImageId, u32>
    decreases s.len(),
{
    if s.len() == 0 {
        Map::empty()
    } else {
        store_map(s.drop_last()).insert(s.last().0, s.last().1)
    }
}

/// A view is refused where the counter is missing or already zero.
pub open spec fn view_refused(m: Map<ImageId, u32>, id: ImageId) -> bool {
    !m.dom().contains(id) || m[id] == 0
}

/// The store after one view attempt: only a granted view changes it, by
/// decrementing the counter.
pub open spec fn consume_model(m: Map<ImageId, u32>, id: ImageId) -> Map<ImageId, u32> {
    if view_refused(m, id) {
        m
    } else {
        m.insert(id, (m[id] - 1) as u32)
    }
}

/// The store after a `CONTROL_UPDATE`: an existing counter is rewritten to
/// `v`; a missing one is refused, not created.
pub open spec fn set_views_model(m: Map<ImageId, u32>, id: ImageId, v: u32) -> Map<ImageId, u32> {
    if m.dom().contains(id) {
        m.insert(id, v)
    } else {
        m
    }
}

/// The view budget never goes below zero: a view is granted only where the
/// counter is positive, and then lowers it by exactly one; a missing or
/// exhausted counter is refused and the store left as it was — in
/// particular, a missing counter is not created.
pub proof fn lemma_budget_never_negative(m: Map<ImageId, u32>, id: ImageId)
    ensures
        view_refused(m, id) ==> consume_model(m, id) == m,
        !view_refused(m, id) ==> m[id] >= 1 && consume_model(m, id)[id] == m[id] - 1,
        !m.dom().contains(id) ==> !consume_model(m, id).dom().contains(id),
{
}

/// Rewriting a counter to the same value twice changes nothing after the
/// first time: the file contents are the same bytes.
pub proof fn lemma_set_views_idempotent(m: Map<ImageId, u32>, id: ImageId, v: u32)
    ensures
        set_views_model(set_views_model(m, id, v), id, v) == set_views_model(m, id, v),
{
    if m.dom().contains(id) {
        assert(set_views_model(set_views_model(m, id, v), id, v) =~= set_views_model(m, id, v));
    }
}

/// Why a view attempt or a counter rewrite was refused.
#[derive(Clone, Copy, Debug, PartialEq, Eq, Structural)]
pub enum ViewError {
    /// No counter file exists for this image.
    Missing,
    /// The counter is zero: no views are left.
    Depleted,
}

impl View for ViewStore {
    type V = Map<ImageId, u32>;

    open spec fn view(&self) -> Map<ImageId, u32> {
        store_map(self.entries@)
    }
}

proof fn lemma_store_find(s: Seq<(ImageId, u32)>, id: ImageId)
    ensures
        store_map(s).dom().contains(id) <==> exists|k: int| 0 <= k < s.len() && (#[trigger] s[k]).0 == id,
        (forall|k: int| 0 <= k < s.len() ==> (#[trigger] s[k]).0 != id) ==> !store_map(
            s,
        ).dom().contains(id),
    decreases s.len(),
{
    if s.len() > 0 {
        lemma_store_find(s.drop_last(), id);
        assert(forall|k: int|
            #![trigger s[k]]
            #![trigger s.drop_last()[k]]
            0 <= k < s.len() - 1 ==> s.drop_last()[k] == s[k]);
    }
}

/// Ids are pairwise distinct, so each counter is one file.
pub open spec fn store_wf(s: Seq<(ImageId, u32)>) -> bool {
    forall|j: int, k: int| 0 <= j < k < s.len() ==> (#[trigger] s[j]).0 != (#[trigger] s[k]).0
}

proof fn lemma_store_lookup(s: Seq<(ImageId, u32)>, i: int)
    requires
        store_wf(s),
        0 <= i < s.len(),
    ensures
        store_map(s).dom().contains(s[i].0),
        store_map(s)[s[i].0] == s[i].1,
    decreases s.len(),
{
    if s.len() > 0 {
        assert(forall|k: int|
            #![trigger s[k]]
            #![trigger s.drop_last()[k]]
            0 <= k < s.len() - 1 ==> s.drop_last()[k] == s[k]);
        if i < s.len() - 1 {
            assert(store_wf(s.drop_last()));
            lemma_store_lookup(s.drop_last(), i);
            assert(s.last().0 != s[i].0);
        }
    }
}

proof fn lemma_store_set(s: Seq<(ImageId, u32)>, i: int, v: u32)
    requires
        store_wf(s),
        0 <= i < s.len(),
    ensures
        store_map(s.update(i, (s[i].0, v))) =~= store_map(s).insert(s[i].0, v),
        store_wf(s.update(i, (s[i].0, v))),
    decreases s.len(),
{
    let t = s.update(i, (s[i].0, v));
    assert(forall|k: int|
        #![trigger s[k]]
        #![trigger s.drop_last()[k]]
        0 <= k < s.len() - 1 ==> s.drop_last()[k] == s[k]);
    assert(store_wf(s.drop_last()));
    if i == s.len() - 1 {
        assert(t.drop_last() =~= s.drop_last());
    } else {
        assert(t.drop_last() =~= s.drop_last().update(i, (s.drop_last()[i].0, v)));
        lemma_store_set(s.drop_last(), i, v);
        assert(t.last() == s.last());
        assert(s.last().0 != s[i].0);
    }
}

impl ViewStore {
    /// Ids pairwise distinct.
    pub open spec fn wf(&self) -> bool {
        store_wf(self.entries@)
    }

    /// An empty store: no counter files at all.
    pub fn new() -> (r: ViewStore)
        ensures
            r@ == Map::<ImageId, u32>::empty(),
            r.wf(),
    {
        let s = ViewStore { entries: Vec::new() };
        proof {
            assert(s.entries@ =~= Seq::<(ImageId, u32)>::empty());
        }
        s
    }

    /// The counter for `id`, if its file exists.
    pub fn get(&self, id: &ImageId) -> (r: Option<u32>)
        requires
            self.wf(),
        ensures
            r matches Some(v) ==> self@.dom().contains(*id) && self@[*id] == v,
            r is None ==> !self@.dom().contains(*id),
    {
        let n = self.entries.len();
        let mut i: usize = 0;
        while i < n
            invariant
                self.wf(),
                n == self.entries@.len(),
                i <= n,
                forall|k: int| 0 <= k < i ==> (#[trigger] self.entries@[k]).0 != *id,
            decreases n - i,
        {
            if self.entries[i].0 == *id {
                proof {
                    lemma_store_lookup(self.entries@, i as int);
                }
                return Some(self.entries[i].1);
            }
            i = i + 1;
        }
        proof {
            lemma_store_find(self.entries@, *id);
        }
        None
    }

    /// Create or overwrite the counter file for `id`, as receiving an
    /// image with an embedded initial budget does.
    pub fn put(&mut self, id: ImageId, v: u32)
        requires
            old(self).wf(),
        ensures
            final(self)@ == old(self)@.insert(id, v),
            final(self).wf(),
    {
        let n = self.entries.len();
        let mut i: usize = 0;
        while i < n
            invariant
                old(self).wf(),
                *self == *old(self),
                n == self.entries@.len(),
                i <= n,
                forall|k: int| 0 <= k < i ==> (#[trigger] self.entries@[k]).0 != id,
            decreases n - i,
        {
            if self.entries[i].0 == id {
                proof {
                    lemma_store_set(self.entries@, i as int, v);
                    lemma_store_lookup(self.entries@, i as int);
                }
                self.entries.set(i, (id, v));
                return ;
            }
            i = i + 1;
        }
        proof {
            lemma_store_find(self.entries@, id);
        }
        self.entries.push((id, v));
        proof {
            assert(self.entries@.drop_last() =~= old(self).entries@);
            assert forall|j: int, k: int| 0 <= j < k < self.entries@.len() implies (
            #[trigger] self.entries@[j]).0 != (#[trigger] self.entries@[k]).0 by {
                if k == self.entries@.len() - 1 {
                    assert(self.entries@[j] == old(self).entries@[j]);
                }
            }
        }
    }

    /// Rewrite the counter for `id` to `v`, as a `CONTROL_UPDATE` does; a
    /// missing counter file is refused, not created.
    pub fn set_views(&mut self, id: ImageId, v: u32) -> (r: Result<(), ViewError>)
        requires
            old(self).wf(),
        ensures
            final(self)@ == set_views_model(old(self)@, id, v),
            final(self).wf(),
            r is Ok <==> old(self)@.dom().contains(id),
            r is Err ==> r == Err::<(), ViewError>(ViewError::Missing),
    {
        let n = self.entries.len();
        let mut i: usize = 0;
        while i < n
            invariant
                old(self).wf(),
                *self == *old(self),
                n == self.entries@.len(),
                i <= n,
                forall|k: int| 0 <= k < i ==> (#[trigger] self.entries@[k]).0 != id,
            decreases n - i,
        {
            if self.entries[i].0 == id {
                proof {
                    lemma_store_set(self.entries@, i as int, v);
                    lemma_store_lookup(self.entries@, i as int);
                }
                self.entries.set(i, (id, v));
                return Ok(());
            }
            i = i + 1;
        }
        proof {
            lemma_store_find(self.entries@, id);
        }
        Err(ViewError::Missing)
    }

    /// One view attempt on `id`: grants the view and lowers the counter by
    /// one, or refuses where the counter is missing or zero. The remaining
    /// budget is returned on success.
    pub fn consume(&mut self, id: ImageId) -> (r: Result<u32, ViewError>)
        requires
            old(self).wf(),
        ensures
            final(self)@ == consume_model(old(self)@, id),
            final(self).wf(),
            r is Ok <==> !view_refused(old(self)@, id),
            r matches Ok(left) ==> left == old(self)@[id] - 1,
            r == Err::<u32, ViewError>(ViewError::Missing) <==> !old(self)@.dom().contains(id),
            r == Err::<u32, ViewError>(ViewError::Depleted) <==> old(self)@.dom().contains(id)
                && old(self)@[id] == 0,
    {
        let n = self.entries.len();
        let mut i: usize = 0;
        while i < n
            invariant
                old(self).wf(),
                *self == *old(self),
                n == self.entries@.len(),
                i <= n,
                forall|k: int| 0 <= k < i ==> (#[trigger] self.entries@[k]).0 != id,
            decreases n - i,
        {
            if self.entries[i].0 == id {
                proof {
                    lemma_store_lookup(self.entries@, i as int);
                }
                let v = self.entries[i].1;
                if v == 0 {
                    return Err(ViewError::Depleted);
                }
                proof {
                    lemma_store_set(self.entries@, i as int, (v - 1) as u32);
                }
                self.entries.set(i, (id, v - 1));
                return Ok(v - 1);
            }
            i = i + 1;
        }
        proof {
            lemma_store_find(self.entries@, id);
        }
        Err(ViewError::Missing)
    }
}

} // verus!
