//! Directory of Service: the replicated registry of client records,
//! `(endpoint, owner id, online)`, keyed by endpoint. A `STATUS` beacon
//! appends an unknown endpoint, flips the online bit of a known one whose
//! bit differs, and otherwise changes nothing; `DIR_OF_SERV` gossip applies
//! the same rule, which makes delivery idempotent and, for distinct
//! endpoints, order-independent.

use vstd::prelude::*;

use crate::bytes::bytes_eq;
use crate::bytes::split_on;
use crate::bytes::split_spec;
use crate::messages::bool_text;

verus! {

/// One client record: the client's P2P endpoint, its owner id, and
/// whether it is online.
pub struct ClientRecord {
    pub endpoint: Vec<u8>,
    pub owner: Vec<u8>,
    pub online: bool,
}

/// Mathematical model of a [`ClientRecord`].
pub ghost struct RecordModel {
    pub endpoint: Seq<u8>,
    pub owner: Seq<u8>,
    pub online: bool,
}

impl View for ClientRecord {
    type V = RecordModel;

    open spec fn view(&self) -> RecordModel {
        RecordModel { endpoint: self.endpoint@, owner: self.owner@, online: self.online }
    }
}

/// Index of the record with `endpoint` `e`, or `-1` if none holds it.
/// Under [`dir_wf`] at most one does.
pub open spec fn find_endpoint(s: Seq<RecordModel>, e: Seq<u8>) -> int
    decreases s.len(),
{
    if s.len() == 0 {
        -1
    } else if s.last().endpoint == e {
        s.len() - 1
    } else {
        find_endpoint(s.drop_last(), e)
    }
}

/// Endpoints are pairwise distinct: the file keys records by endpoint.
pub open spec fn dir_wf(s: Seq<RecordModel>) -> bool {
    forall|j: int, k: int|
        0 <= j < k < s.len() ==> (#[trigger] s[j]).endpoint != (#[trigger] s[k]).endpoint
}

/// The local update rule for one `STATUS` or `DIR_OF_SERV` record `r`:
/// append an unknown endpoint; rewrite a known one only where the online
/// bit differs, keeping the stored owner; otherwise do nothing.
pub open spec fn dir_apply(s: Seq<RecordModel>, r: RecordModel) -> Seq<RecordModel> {
    let i = find_endpoint(s, r.endpoint);
    if i == -1 {
        s.push(r)
    } else if s[i].online != r.online {
        s.update(i, RecordModel { endpoint: s[i].endpoint, owner: s[i].owner, online: r.online })
    } else {
        s
    }
}

/// Whether applying `r` writes the file (a new record, or a flipped bit).
pub open spec fn dir_changes(s: Seq<RecordModel>, r: RecordModel) -> bool {
    find_endpoint(s, r.endpoint) == -1 || s[find_endpoint(s, r.endpoint)].online != r.online
}

pub proof fn lemma_find_absent(s: Seq<RecordModel>, e: Seq<u8>)
    ensures
        find_endpoint(s, e) == -1 <==> forall|k: int|
            0 <= k < s.len() ==> (#[trigger] s[k]).endpoint != e,
        find_endpoint(s, e) != -1 ==> 0 <= find_endpoint(s, e) < s.len() && s[find_endpoint(
            s,
            e,
        )].endpoint == e,
    decreases s.len(),
{
    if s.len() > 0 {
        lemma_find_absent(s.drop_last(), e);
        assert(forall|k: int|
            #![trigger s[k]]
            #![trigger s.drop_last()[k]]
            0 <= k < s.len() - 1 ==> s.drop_last()[k] == s[k]);
    }
}

/// Under `dir_wf`, a record holding `e` is the one `find_endpoint` names.
pub proof fn lemma_find_unique(s: Seq<RecordModel>, e: Seq<u8>, i: int)
    requires
        dir_wf(s),
        0 <= i < s.len(),
        s[i].endpoint == e,
    ensures
        find_endpoint(s, e) == i,
    decreases s.len(),
{
    if s.len() > 0 {
        assert(forall|k: int|
            #![trigger s[k]]
            #![trigger s.drop_last()[k]]
            0 <= k < s.len() - 1 ==> s.drop_last()[k] == s[k]);
        if s.last().endpoint == e {
            assert(i == s.len() - 1);
        } else {
            assert(i < s.len() - 1);
            assert(dir_wf(s.drop_last()));
            lemma_find_unique(s.drop_last(), e, i);
        }
    }
}

/// The update rule keeps endpoints pairwise distinct.
pub proof fn lemma_apply_wf(s: Seq<RecordModel>, r: RecordModel)
    requires
        dir_wf(s),
    ensures
        dir_wf(dir_apply(s, r)),
{
    lemma_find_absent(s, r.endpoint);
    let i = find_endpoint(s, r.endpoint);
    if i == -1 {
        let t = s.push(r);
        assert forall|j: int, k: int| 0 <= j < k < t.len() implies (#[trigger] t[j]).endpoint != (
        #[trigger] t[k]).endpoint by {
            if k == t.len() - 1 {
                assert(t[j] == s[j]);
            }
        }
    } else if s[i].online != r.online {
        let t = s.update(i, RecordModel { endpoint: s[i].endpoint, owner: s[i].owner, online: r.online });
        assert forall|j: int, k: int| 0 <= j < k < t.len() implies (#[trigger] t[j]).endpoint != (
        #[trigger] t[k]).endpoint by {
            assert(t[j].endpoint == s[j].endpoint);
            assert(t[k].endpoint == s[k].endpoint);
        }
    }
}

/// Applying the same record twice is a no-op after the first time.
pub proof fn lemma_apply_idempotent(s: Seq<RecordModel>, r: RecordModel)
    ensures
        dir_apply(dir_apply(s, r), r) == dir_apply(s, r),
{
    lemma_find_absent(s, r.endpoint);
    let i = find_endpoint(s, r.endpoint);
    if i == -1 {
        let t = s.push(r);
        lemma_find_push(s, r, r.endpoint);
        assert(t[t.len() - 1].online == r.online);
    } else if s[i].online != r.online {
        let t = s.update(
            i,
            RecordModel { endpoint: s[i].endpoint, owner: s[i].owner, online: r.online },
        );
        lemma_find_update_same(s, i, r.online, r.endpoint);
        assert(t[i].online == r.online);
    }
}

/// Pushing a record for a fresh endpoint makes `find_endpoint` name it.
proof fn lemma_find_push(s: Seq<RecordModel>, r: RecordModel, e: Seq<u8>)
    ensures
        find_endpoint(s.push(r), e) == if r.endpoint == e {
            s.len() as int
        } else {
            find_endpoint(s, e)
        },
{
    let t = s.push(r);
    assert(t.last() == r);
    assert(t.drop_last() =~= s);
}

/// An update that keeps the endpoint at `i` leaves `find_endpoint` as it was.
proof fn lemma_find_update_same(s: Seq<RecordModel>, i: int, online: bool, e: Seq<u8>)
    requires
        0 <= i < s.len(),
    ensures
        find_endpoint(
            s.update(i, RecordModel { endpoint: s[i].endpoint, owner: s[i].owner, online }),
            e,
        ) == find_endpoint(s, e),
    decreases s.len(),
{
    let t = s.update(i, RecordModel { endpoint: s[i].endpoint, owner: s[i].owner, online });
    if s.len() > 0 {
        if i == s.len() - 1 {
            assert(t.last().endpoint == s.last().endpoint);
            if s.last().endpoint != e {
                assert(t.drop_last() =~= s.drop_last());
            }
        } else {
            assert(t.last() == s.last());
            if s.last().endpoint != e {
                lemma_find_update_same(s.drop_last(), i, online, e);
                assert(t.drop_last() =~= s.drop_last().update(
                    i,
                    RecordModel {
                        endpoint: s.drop_last()[i].endpoint,
                        owner: s.drop_last()[i].owner,
                        online,
                    },
                ));
            }
        }
    }
}

/// A record whose endpoint and bit are already present changes nothing.
pub proof fn lemma_apply_present_noop(s: Seq<RecordModel>, r: RecordModel, i: int)
    requires
        dir_wf(s),
        0 <= i < s.len(),
        s[i].endpoint == r.endpoint,
        s[i].online == r.online,
    ensures
        dir_apply(s, r) == s,
{
    lemma_find_unique(s, r.endpoint, i);
}

/// The directory read as a finite map from endpoint to `(owner, online)`;
/// later records win, and under `dir_wf` each endpoint appears once.
pub open spec fn dir_as_map(s: Seq<RecordModel>) -> Map<Seq<u8>, (Seq<u8>, bool)>
    decreases s.len(),
{
    if s.len() == 0 {
        Map::empty()
    } else {
        dir_as_map(s.drop_last()).insert(
            s.last().endpoint,
            (s.last().owner, s.last().online),
        )
    }
}

/// The update rule seen on the map reading of the directory.
pub open spec fn dir_apply_map(
    m: Map<Seq<u8>, (Seq<u8>, bool)>,
    r: RecordModel,
) -> Map<Seq<u8>, (Seq<u8>, bool)> {
    if m.dom().contains(r.endpoint) {
        m.insert(r.endpoint, (m[r.endpoint].0, r.online))
    } else {
        m.insert(r.endpoint, (r.owner, r.online))
    }
}

proof fn lemma_map_find(s: Seq<RecordModel>, e: Seq<u8>)
    requires
        dir_wf(s),
    ensures
        dir_as_map(s).dom().contains(e) <==> find_endpoint(s, e) != -1,
        find_endpoint(s, e) != -1 ==> dir_as_map(s)[e] == (
            s[find_endpoint(s, e)].owner,
            s[find_endpoint(s, e)].online,
        ),
    decreases s.len(),
{
    if s.len() > 0 {
        assert(forall|k: int|
            #![trigger s[k]]
            #![trigger s.drop_last()[k]]
            0 <= k < s.len() - 1 ==> s.drop_last()[k] == s[k]);
        assert(dir_wf(s.drop_last()));
        lemma_map_find(s.drop_last(), e);
        if s.last().endpoint != e {
            lemma_find_absent(s.drop_last(), e);
        }
    }
}

/// On the map reading, the list-level update rule is `dir_apply_map`.
pub proof fn lemma_apply_as_map(s: Seq<RecordModel>, r: RecordModel)
    requires
        dir_wf(s),
    ensures
        dir_as_map(dir_apply(s, r)) == dir_apply_map(dir_as_map(s), r),
{
    lemma_map_find(s, r.endpoint);
    lemma_find_absent(s, r.endpoint);
    let i = find_endpoint(s, r.endpoint);
    if i == -1 {
        let t = s.push(r);
        assert(t.drop_last() =~= s);
    } else if s[i].online != r.online {
        let t = s.update(
            i,
            RecordModel { endpoint: s[i].endpoint, owner: s[i].owner, online: r.online },
        );
        lemma_map_update(s, i, r.online);
    } else {
        assert(dir_as_map(s) =~= dir_apply_map(dir_as_map(s), r));
    }
}

proof fn lemma_map_update(s: Seq<RecordModel>, i: int, online: bool)
    requires
        dir_wf(s),
        0 <= i < s.len(),
    ensures
        dir_as_map(
            s.update(i, RecordModel { endpoint: s[i].endpoint, owner: s[i].owner, online }),
        ) =~= dir_as_map(s).insert(s[i].endpoint, (s[i].owner, online)),
    decreases s.len(),
{
    let t = s.update(i, RecordModel { endpoint: s[i].endpoint, owner: s[i].owner, online });
    assert(forall|k: int|
        #![trigger s[k]]
        #![trigger s.drop_last()[k]]
        0 <= k < s.len() - 1 ==> s.drop_last()[k] == s[k]);
    assert(dir_wf(s.drop_last()));
    if i == s.len() - 1 {
        assert(t.drop_last() =~= s.drop_last());
    } else {
        assert(t.drop_last() =~= s.drop_last().update(
            i,
            RecordModel {
                endpoint: s.drop_last()[i].endpoint,
                owner: s.drop_last()[i].owner,
                online,
            },
        ));
        lemma_map_update(s.drop_last(), i, online);
        assert(t.last() == s.last());
        lemma_find_unique(s, s[i].endpoint, i);
        assert(s.last().endpoint != s[i].endpoint);
    }
}

/// Records for distinct endpoints may arrive in either order: the two
/// update orders leave the directory with the same set of records. (For one
/// endpoint the orders differ: opposite online bits applied in opposite
/// orders leave opposite bits.)
pub proof fn lemma_apply_commutes(s: Seq<RecordModel>, r1: RecordModel, r2: RecordModel)
    requires
        dir_wf(s),
        r1.endpoint != r2.endpoint,
    ensures
        dir_as_map(dir_apply(dir_apply(s, r1), r2)) == dir_as_map(dir_apply(dir_apply(s, r2), r1)),
{
    lemma_apply_wf(s, r1);
    lemma_apply_wf(s, r2);
    lemma_apply_as_map(s, r1);
    lemma_apply_as_map(s, r2);
    lemma_apply_as_map(dir_apply(s, r1), r2);
    lemma_apply_as_map(dir_apply(s, r2), r1);
    let m = dir_as_map(s);
    assert(dir_apply_map(dir_apply_map(m, r1), r2) =~= dir_apply_map(dir_apply_map(m, r2), r1));
}

/// A whole delivery of records, applied in order.
pub open spec fn dir_apply_all(s: Seq<RecordModel>, msgs: Seq<RecordModel>) -> Seq<RecordModel>
    decreases msgs.len(),
{
    if msgs.len() == 0 {
        s
    } else {
        dir_apply(dir_apply_all(s, msgs.drop_last()), msgs.last())
    }
}

/// The same delivery on the map reading.
pub open spec fn dir_apply_map_all(
    m: Map<Seq<u8>, (Seq<u8>, bool)>,
    msgs: Seq<RecordModel>,
) -> Map<Seq<u8>, (Seq<u8>, bool)>
    decreases msgs.len(),
{
    if msgs.len() == 0 {
        m
    } else {
        dir_apply_map(dir_apply_map_all(m, msgs.drop_last()), msgs.last())
    }
}

/// Each delivered record concerns its own endpoint.
pub open spec fn distinct_endpoints(msgs: Seq<RecordModel>) -> bool {
    forall|j: int, k: int|
        0 <= j < k < msgs.len() ==> (#[trigger] msgs[j]).endpoint != (#[trigger] msgs[k]).endpoint
}

/// A delivery keeps the directory well formed, and reads on the map
/// exactly as the map-level delivery.
pub proof fn lemma_apply_all_as_map(s: Seq<RecordModel>, msgs: Seq<RecordModel>)
    requires
        dir_wf(s),
    ensures
        dir_wf(dir_apply_all(s, msgs)),
        dir_as_map(dir_apply_all(s, msgs)) == dir_apply_map_all(dir_as_map(s), msgs),
    decreases msgs.len(),
{
    if msgs.len() > 0 {
        lemma_apply_all_as_map(s, msgs.drop_last());
        lemma_apply_wf(dir_apply_all(s, msgs.drop_last()), msgs.last());
        lemma_apply_as_map(dir_apply_all(s, msgs.drop_last()), msgs.last());
    }
}

/// On the map reading, records for distinct endpoints commute.
pub proof fn lemma_apply_map_commutes(
    m: Map<Seq<u8>, (Seq<u8>, bool)>,
    r1: RecordModel,
    r2: RecordModel,
)
    requires
        r1.endpoint != r2.endpoint,
    ensures
        dir_apply_map(dir_apply_map(m, r1), r2) == dir_apply_map(dir_apply_map(m, r2), r1),
{
    assert(dir_apply_map(dir_apply_map(m, r1), r2) =~= dir_apply_map(dir_apply_map(m, r2), r1));
}

proof fn lemma_fold_push(m: Map<Seq<u8>, (Seq<u8>, bool)>, q: Seq<RecordModel>, x: RecordModel)
    ensures
        dir_apply_map_all(m, q.push(x)) == dir_apply_map(dir_apply_map_all(m, q), x),
{
    assert(q.push(x).drop_last() =~= q);
    assert(q.push(x).last() == x);
}

/// A record whose endpoint is touched by nothing after it can be pulled
/// out of the middle of a delivery.
proof fn lemma_fold_pull_out(
    m: Map<Seq<u8>, (Seq<u8>, bool)>,
    a: Seq<RecordModel>,
    x: RecordModel,
    b: Seq<RecordModel>,
)
    requires
        forall|k: int| 0 <= k < b.len() ==> (#[trigger] b[k]).endpoint != x.endpoint,
    ensures
        dir_apply_map_all(m, a + seq![x] + b) == dir_apply_map(dir_apply_map_all(m, a + b), x),
    decreases b.len(),
{
    if b.len() == 0 {
        assert(a + seq![x] + b =~= (a + b).push(x));
        lemma_fold_push(m, a + b, x);
    } else {
        let y = b.last();
        let b1 = b.drop_last();
        assert(forall|k: int| 0 <= k < b1.len() ==> (#[trigger] b1[k]) == b[k]);
        assert(a + seq![x] + b =~= (a + seq![x] + b1).push(y));
        assert(a + b =~= (a + b1).push(y));
        lemma_fold_push(m, a + seq![x] + b1, y);
        lemma_fold_push(m, a + b1, y);
        lemma_fold_pull_out(m, a, x, b1);
        lemma_apply_map_commutes(dir_apply_map_all(m, a + b1), x, y);
    }
}

proof fn lemma_fold_any_order(
    m: Map<Seq<u8>, (Seq<u8>, bool)>,
    msgs1: Seq<RecordModel>,
    msgs2: Seq<RecordModel>,
)
    requires
        distinct_endpoints(msgs1),
        distinct_endpoints(msgs2),
        msgs1.to_multiset() == msgs2.to_multiset(),
    ensures
        dir_apply_map_all(m, msgs1) == dir_apply_map_all(m, msgs2),
    decreases msgs1.len(),
{
    broadcast use vstd::seq_lib::group_to_multiset_ensures;

    if msgs1.len() == 0 {
        assert(msgs2.to_multiset().len() == 0);
    } else {
        let x = msgs1.last();
        assert(msgs1.contains(x));
        assert(msgs2.to_multiset().count(x) > 0);
        assert(msgs2.contains(x));
        let i = choose|i: int| 0 <= i < msgs2.len() && msgs2[i] == x;
        let rest2 = msgs2.take(i) + msgs2.skip(i + 1);
        assert(msgs2 =~= msgs2.take(i) + seq![x] + msgs2.skip(i + 1));
        assert(msgs2.remove(i) =~= rest2);
        assert(rest2.to_multiset() == msgs2.to_multiset().remove(x));
        assert(msgs1.remove(msgs1.len() - 1) =~= msgs1.drop_last());
        assert(msgs1.drop_last().to_multiset() == msgs1.to_multiset().remove(x));
        assert(forall|k: int|
            0 <= k < msgs2.skip(i + 1).len() ==> (#[trigger] msgs2.skip(i + 1)[k]).endpoint
                != x.endpoint) by {
            assert(forall|k: int|
                0 <= k < msgs2.skip(i + 1).len() ==> (#[trigger] msgs2.skip(i + 1)[k]) == msgs2[i
                    + 1 + k]);
        }
        lemma_fold_pull_out(m, msgs2.take(i), x, msgs2.skip(i + 1));
        assert(distinct_endpoints(msgs1.drop_last())) by {
            assert(forall|k: int|
                0 <= k < msgs1.len() - 1 ==> (#[trigger] msgs1.drop_last()[k]) == msgs1[k]);
        }
        assert(distinct_endpoints(rest2)) by {
            assert forall|j: int, k: int| 0 <= j < k < rest2.len() implies (
            #[trigger] rest2[j]).endpoint != (#[trigger] rest2[k]).endpoint by {
                let mj: int = if j < i {
                    j
                } else {
                    j + 1
                };
                let mk: int = if k < i {
                    k
                } else {
                    k + 1
                };
                assert(rest2[j] == msgs2[mj]);
                assert(rest2[k] == msgs2[mk]);
            }
        }
        lemma_fold_any_order(m, msgs1.drop_last(), rest2);
    }
}

/// However the same records — one per endpoint — are ordered on delivery,
/// a replica ends with the same set of records: the directories converge.
/// (Two records for one endpoint with opposite bits do depend on their
/// order; the update is then settled by whichever arrives last.)
pub proof fn lemma_directory_converges(
    s: Seq<RecordModel>,
    msgs1: Seq<RecordModel>,
    msgs2: Seq<RecordModel>,
)
    requires
        dir_wf(s),
        distinct_endpoints(msgs1),
        distinct_endpoints(msgs2),
        msgs1.to_multiset() == msgs2.to_multiset(),
    ensures
        dir_as_map(dir_apply_all(s, msgs1)) == dir_as_map(dir_apply_all(s, msgs2)),
{
    lemma_apply_all_as_map(s, msgs1);
    lemma_apply_all_as_map(s, msgs2);
    lemma_fold_any_order(dir_as_map(s), msgs1, msgs2);
}

/// The directory a replica holds, in file order.
pub struct Directory {
    pub records: Vec<ClientRecord>,
}

impl View for Directory {
    type V = Seq<RecordModel>;

    open spec fn view(&self) -> Seq<RecordModel> {
        self.records@.map_values(|r: ClientRecord| r@)
    }
}

impl Directory {
    /// Endpoints pairwise distinct.
    pub open spec fn wf(&self) -> bool {
        dir_wf(self@)
    }

    /// An empty directory.
    pub fn new() -> (r: Directory)
        ensures
            r@ == Seq::<RecordModel>::empty(),
            r.wf(),
    {
        let d = Directory { records: Vec::new() };
        proof {
            assert(d@ =~= Seq::<RecordModel>::empty());
        }
        d
    }

    /// Apply one `STATUS` or gossiped record; the result says whether the
    /// file changed (and so whether the record is gossiped on).
    pub fn apply_status(&mut self, endpoint: &Vec<u8>, owner: &Vec<u8>, online: bool) -> (changed:
        bool)
        requires
            old(self).wf(),
        ensures
            final(self)@ == dir_apply(
                old(self)@,
                RecordModel { endpoint: endpoint@, owner: owner@, online },
            ),
            final(self).wf(),
            changed == dir_changes(
                old(self)@,
                RecordModel { endpoint: endpoint@, owner: owner@, online },
            ),
    {
        let ghost r = RecordModel { endpoint: endpoint@, owner: owner@, online };
        let n = self.records.len();
        let mut i: usize = 0;
        while i < n
            invariant
                old(self).wf(),
                r == (RecordModel { endpoint: endpoint@, owner: owner@, online }),
                n == self.records@.len(),
                i <= n,
                self@ == old(self)@,
                forall|k: int| 0 <= k < i ==> (#[trigger] self@[k]).endpoint != endpoint@,
            decreases n - i,
        {
            if bytes_eq(self.records[i].endpoint.as_slice(), endpoint.as_slice()) {
                proof {
                    lemma_find_unique(self@, endpoint@, i as int);
                    lemma_apply_wf(old(self)@, r);
                }
                if self.records[i].online != online {
                    let ep = self.records[i].endpoint.clone();
                    let ow = self.records[i].owner.clone();
                    proof {
                        assert(ep@ =~= old(self)@[i as int].endpoint);
                        assert(ow@ =~= old(self)@[i as int].owner);
                    }
                    self.records.set(i, ClientRecord { endpoint: ep, owner: ow, online });
                    proof {
                        assert(find_endpoint(old(self)@, r.endpoint) == i as int);
                        assert(old(self)@[i as int].online != r.online);
                        assert(self@.len() == old(self)@.len());
                        assert(forall|k: int|
                            0 <= k < self@.len() && k != i ==> #[trigger] self@[k] == old(
                                self,
                            )@[k]);
                        assert(self@[i as int] == RecordModel {
                            endpoint: old(self)@[i as int].endpoint,
                            owner: old(self)@[i as int].owner,
                            online,
                        });
                        assert(self@ =~= dir_apply(old(self)@, r));
                    }
                    return true;
                } else {
                    return false;
                }
            }
            i = i + 1;
        }
        proof {
            lemma_find_absent(self@, endpoint@);
            lemma_apply_wf(old(self)@, r);
        }
        self.records.push(ClientRecord {
            endpoint: endpoint.clone(),
            owner: owner.clone(),
            online,
        });
        proof {
            assert(self@ =~= dir_apply(old(self)@, r));
        }
        true
    }

    /// The endpoint of the first record whose owner is `owner`, if any:
    /// where `Access_Control` forwards a `CONTROL_UPDATE`.
    pub fn endpoint_of_owner(&self, owner: &Vec<u8>) -> (r: Option<Vec<u8>>)
        ensures
            r is Some <==> find_owner(self@, owner@) != -1,
            r matches Some(e) ==> 0 <= find_owner(self@, owner@) < self@.len() && e@ == self@[
                find_owner(self@, owner@)
            ].endpoint,
    {
        let n = self.records.len();
        let mut i: usize = 0;
        while i < n
            invariant
                n == self.records@.len(),
                i <= n,
                forall|k: int| 0 <= k < i ==> (#[trigger] self@[k]).owner != owner@,
            decreases n - i,
        {
            if bytes_eq(self.records[i].owner.as_slice(), owner.as_slice()) {
                let e = self.records[i].endpoint.clone();
                assert(self@[i as int].owner == owner@ && self@[i as int].endpoint == e@);
                proof {
                    lemma_find_owner_at(self@, owner@, i as int);
                }
                return Some(e);
            }
            i = i + 1;
        }
        proof {
            lemma_find_owner(self@, owner@);
        }
        None
    }

    /// The directory file as CSV text: the header, then one
    /// `endpoint,owner,online` line per record.
    pub fn to_csv(&self) -> (r: Vec<u8>)
        ensures
            r@ == dos_csv(self@),
    {
        let header: [u8; 20] = [
            117, 105, 100, 44, 99, 108, 105, 101, 110, 116, 95, 105, 100, 44, 115, 116, 97, 116,
            117, 115,
        ];
        let mut out: Vec<u8> = Vec::new();
        crate::messages::append_slice(&mut out, header.as_slice());
        out.push(10);
        assert(out@ =~= csv_header() + seq![10u8] + csv_body(self@.take(0)));
        let n = self.records.len();
        let mut i: usize = 0;
        while i < n
            invariant
                n == self.records@.len(),
                i <= n,
                out@ == csv_header() + seq![10u8] + csv_body(self@.take(i as int)),
            decreases n - i,
        {
            crate::messages::append_slice(&mut out, self.records[i].endpoint.as_slice());
            out.push(44);
            crate::messages::append_slice(&mut out, self.records[i].owner.as_slice());
            out.push(44);
            let b = crate::messages::bool_bytes(self.records[i].online);
            crate::messages::append_slice(&mut out, b.as_slice());
            out.push(10);
            proof {
                assert(self@.take(i as int + 1).drop_last() =~= self@.take(i as int));
                assert(self@.take(i as int + 1).last() == self@[i as int]);
                assert(out@ =~= csv_header() + seq![10u8] + csv_body(self@.take(i as int + 1)));
            }
            i = i + 1;
        }
        proof {
            assert(self@.take(n as int) =~= self@);
        }
        out
    }
}

/// Index of the first record whose owner is `o`, or `-1` if none holds it.
pub open spec fn find_owner(s: Seq<RecordModel>, o: Seq<u8>) -> int
    decreases s.len(),
{
    if s.len() == 0 {
        -1
    } else if s[0].owner == o {
        0
    } else {
        let r = find_owner(s.skip(1), o);
        if r == -1 {
            -1
        } else {
            r + 1
        }
    }
}

pub proof fn lemma_find_owner(s: Seq<RecordModel>, o: Seq<u8>)
    ensures
        find_owner(s, o) == -1 <==> forall|k: int| 0 <= k < s.len() ==> (#[trigger] s[k]).owner != o,
        find_owner(s, o) != -1 ==> 0 <= find_owner(s, o) < s.len() && s[find_owner(s, o)].owner
            == o,
    decreases s.len(),
{
    if s.len() > 0 && s[0].owner != o {
        lemma_find_owner(s.skip(1), o);
        assert(forall|j: int| 0 <= j < s.len() - 1 ==> #[trigger] s.skip(1)[j] == s[j + 1]);
        assert(forall|j: int| 1 <= j < s.len() ==> #[trigger] s[j] == s.skip(1)[j - 1]);
    }
}

/// The first matching record is where the first match is.
pub proof fn lemma_find_owner_at(s: Seq<RecordModel>, o: Seq<u8>, i: int)
    requires
        0 <= i < s.len(),
        s[i].owner == o,
        forall|j: int| 0 <= j < i ==> (#[trigger] s[j]).owner != o,
    ensures
        find_owner(s, o) == i,
    decreases s.len(),
{
    if i > 0 {
        assert(forall|j: int| 0 <= j < s.len() - 1 ==> #[trigger] s.skip(1)[j] == s[j + 1]);
        assert(forall|j: int| 1 <= j < s.len() ==> #[trigger] s[j] == s.skip(1)[j - 1]);
        lemma_find_owner_at(s.skip(1), o, i - 1);
    }
}

/// `uid,client_id,status`, the directory file's header.
pub open spec fn csv_header() -> Seq<u8> {
    seq![
        117u8, 105u8, 100u8, 44u8, 99u8, 108u8, 105u8, 101u8, 110u8, 116u8, 95u8, 105u8, 100u8,
        44u8, 115u8, 116u8, 97u8, 116u8, 117u8, 115u8,
    ]
}

/// One CSV line: `endpoint,owner,online`.
pub open spec fn record_line(r: RecordModel) -> Seq<u8> {
    r.endpoint + seq![44u8] + r.owner + seq![44u8] + bool_text(r.online)
}

/// The records as CSV lines, each closed by a newline.
pub open spec fn csv_body(s: Seq<RecordModel>) -> Seq<u8>
    decreases s.len(),
{
    if s.len() == 0 {
        Seq::empty()
    } else {
        csv_body(s.drop_last()) + record_line(s.last()) + seq![10u8]
    }
}

/// The whole directory file.
pub open spec fn dos_csv(s: Seq<RecordModel>) -> Seq<u8> {
    csv_header() + seq![10u8] + csv_body(s)
}

/// The `(owner, endpoint)` pairs a client learns from the CSV lines after
/// the header: one pair per well-formed line whose status reads `true`.
pub open spec fn peers_of_lines(lines: Seq<Seq<u8>>) -> Seq<(Seq<u8>, Seq<u8>)>
    decreases lines.len(),
{
    if lines.len() == 0 {
        Seq::empty()
    } else {
        peers_of_lines(lines.drop_last()) + line_pair(lines.last())
    }
}

/// The pair a single CSV line contributes, if any.
pub open spec fn line_pair(line: Seq<u8>) -> Seq<(Seq<u8>, Seq<u8>)> {
    let fields = split_spec(line, 44);
    if fields.len() == 3 && fields[2] == bool_text(true) {
        seq![(fields[1], fields[0])]
    } else {
        Seq::empty()
    }
}

/// The endpoint for `owner` among the learned pairs; a later line for the
/// same owner wins, as a map insert would.
pub open spec fn peer_lookup(pairs: Seq<(Seq<u8>, Seq<u8>)>, owner: Seq<u8>) -> Option<Seq<u8>>
    decreases pairs.len(),
{
    if pairs.len() == 0 {
        None
    } else if pairs.last().0 == owner {
        Some(pairs.last().1)
    } else {
        peer_lookup(pairs.drop_last(), owner)
    }
}

/// Read a `DOS:` body: skip the header line and collect the
/// `(owner, endpoint)` pairs of the online records.
pub fn peer_map_from_dos(body: &[u8]) -> (r: Vec<(Vec<u8>, Vec<u8>)>)
    ensures
        r@.map_values(|p: (Vec<u8>, Vec<u8>)| (p.0@, p.1@)) == peers_of_lines(
            split_spec(body@, 10).skip(1),
        ),
{
    let lines = split_on(body, 10);
    let ghost all = split_spec(body@, 10);
    let mut out: Vec<(Vec<u8>, Vec<u8>)> = Vec::new();
    let mut i: usize = 1;
    proof {
        assert(out@.map_values(|p: (Vec<u8>, Vec<u8>)| (p.0@, p.1@)) =~= peers_of_lines(
            all.skip(1).take(0),
        ));
    }
    while i < lines.len()
        invariant
            all == split_spec(body@, 10),
            lines@.map_values(|v: Vec<u8>| v@) == all,
            1 <= i <= lines@.len() || (lines@.len() == 0 && i == 1),
            out@.map_values(|p: (Vec<u8>, Vec<u8>)| (p.0@, p.1@)) == peers_of_lines(
                all.skip(1).take(i - 1),
            ),
        decreases lines@.len() - i,
    {
        let line = &lines[i];
        let mut fields = split_on(line.as_slice(), 44);
        proof {
            assert(all.skip(1)[i - 1] == lines@[i as int]@);
            assert(all.skip(1).take(i as int).drop_last() =~= all.skip(1).take(i - 1));
            assert(all.skip(1).take(i as int).last() == all.skip(1)[i - 1]);
        }
        if fields.len() == 3 {
            let truth: [u8; 4] = [116, 114, 117, 101];
            let status_true = bytes_eq(fields[2].as_slice(), truth.as_slice());
            if status_true {
                let status = fields.pop().unwrap();
                let owner = fields.pop().unwrap();
                let endpoint = fields.pop().unwrap();
                proof {
                    assert(bool_text(true) =~= truth@);
                }
                out.push((owner, endpoint));
                proof {
                    assert(line_pair(lines@[i as int]@) =~= seq![
                        (
                            split_spec(lines@[i as int]@, 44)[1],
                            split_spec(lines@[i as int]@, 44)[0],
                        ),
                    ]);
                    assert(out@.map_values(|p: (Vec<u8>, Vec<u8>)| (p.0@, p.1@)) =~= peers_of_lines(
                        all.skip(1).take(i as int),
                    ));
                }
            } else {
                proof {
                    assert(bool_text(true) =~= truth@);
                    assert(line_pair(lines@[i as int]@) =~= Seq::<(Seq<u8>, Seq<u8>)>::empty());
                    assert(out@.map_values(|p: (Vec<u8>, Vec<u8>)| (p.0@, p.1@)) =~= peers_of_lines(
                        all.skip(1).take(i as int),
                    ));
                }
            }
        } else {
            proof {
                assert(line_pair(lines@[i as int]@) =~= Seq::<(Seq<u8>, Seq<u8>)>::empty());
                assert(out@.map_values(|p: (Vec<u8>, Vec<u8>)| (p.0@, p.1@)) =~= peers_of_lines(
                    all.skip(1).take(i as int),
                ));
            }
        }
        i = i + 1;
    }
    proof {
        if lines@.len() == 0 {
            assert(all.skip(1).take(0) =~= all.skip(1));
        } else {
            assert(all.skip(1).take(lines@.len() - 1) =~= all.skip(1));
        }
    }
    out
}

/// Look an owner up among learned pairs; the latest pair wins.
pub fn lookup_peer(pairs: &Vec<(Vec<u8>, Vec<u8>)>, owner: &[u8]) -> (r: Option<Vec<u8>>)
    ensures
        match r {
            Some(e) => peer_lookup(
                pairs@.map_values(|p: (Vec<u8>, Vec<u8>)| (p.0@, p.1@)),
                owner@,
            ) == Some(e@),
            None => peer_lookup(
                pairs@.map_values(|p: (Vec<u8>, Vec<u8>)| (p.0@, p.1@)),
                owner@,
            ) is None,
        },
{
    let ghost m = pairs@.map_values(|p: (Vec<u8>, Vec<u8>)| (p.0@, p.1@));
    let mut found: Option<Vec<u8>> = None;
    let mut i: usize = 0;
    proof {
        assert(m.take(0) =~= Seq::<(Seq<u8>, Seq<u8>)>::empty());
    }
    while i < pairs.len()
        invariant
            m == pairs@.map_values(|p: (Vec<u8>, Vec<u8>)| (p.0@, p.1@)),
            i <= pairs@.len(),
            match found {
                Some(e) => peer_lookup(m.take(i as int), owner@) == Some(e@),
                None => peer_lookup(m.take(i as int), owner@) is None,
            },
        decreases pairs@.len() - i,
    {
        proof {
            assert(m.take(i as int + 1).drop_last() =~= m.take(i as int));
            assert(m.take(i as int + 1).last() == m[i as int]);
        }
        if bytes_eq(pairs[i].0.as_slice(), owner) {
            found = Some(pairs[i].1.clone());
        }
        i = i + 1;
    }
    proof {
        assert(m.take(pairs@.len() as int) =~= m);
    }
    found
}

} // verus!
