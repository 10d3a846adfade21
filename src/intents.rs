use vstd::prelude::*;

use crate::phoenix::{next_id, ErrorReply, OutboundRequestId, PhoenixChannel};

verus! {

/// Relies on uuid::Uuid::new_v4: a random version-4 UUID, as its 128 bits.
#[verifier::external_body]
fn random_uuid() -> (r: u128) {
    uuid::Uuid::new_v4().as_u128()
}

/// The ID of a resource, a UUID held as its 128 bits.
#[derive(Debug, Clone, Copy, PartialEq, Eq, Hash, Structural)]
pub struct ResourceId(u128);

impl View for ResourceId {
    type V = u128;

    closed spec fn view(&self) -> u128 {
        self.0
    }
}

impl ResourceId {
    /// A fresh random resource ID.
    pub fn random() -> (r: Self) {
        ResourceId(random_uuid())
    }

    pub fn from_u128(v: u128) -> (r: Self)
        ensures
            r@ == v,
    {
        ResourceId(v)
    }

    pub fn as_u128(&self) -> (r: u128)
        ensures
            r == self@,
    {
        self.0
    }
}

/// The map from request ID to resource that a list of entries with unique
/// keys stands for.
pub open spec fn entries_map(s: Seq<(u64, u128)>) -> Map<u64, u128> {
    Map::new(
        |k: u64| exists|i: int| 0 <= i < s.len() && (#[trigger] s[i]).0 == k,
        |k: u64| s[choose|i: int| 0 <= i < s.len() && (#[trigger] s[i]).0 == k].1,
    )
}

pub open spec fn keys_unique(s: Seq<(u64, u128)>) -> bool {
    forall|i: int, j: int|
        0 <= i < s.len() && 0 <= j < s.len() && i != j ==> (#[trigger] s[i]).0 != (#[trigger] s[j]).0
}

/// `id` is registered for `r`, and no larger ID is registered for `r`.
pub open spec fn is_latest_intent(m: Map<u64, u128>, id: u64, r: u128) -> bool {
    &&& m.contains_key(id)
    &&& m[id] == r
    &&& forall|k: u64| #[trigger] m.contains_key(k) && m[k] == r ==> k <= id
}

/// The map without any entry for resource `r`.
pub open spec fn without_resource(m: Map<u64, u128>, r: u128) -> Map<u64, u128> {
    Map::new(|k: u64| m.contains_key(k) && m[k] != r, |k: u64| m[k])
}

proof fn lemma_entry_in_map(s: Seq<(u64, u128)>, i: int)
    requires
        keys_unique(s),
        0 <= i < s.len(),
    ensures
        entries_map(s).contains_key(s[i].0),
        entries_map(s)[s[i].0] == s[i].1,
{
    let k = s[i].0;
    assert(exists|j: int| 0 <= j < s.len() && (#[trigger] s[j]).0 == k);
    let j = choose|j: int| 0 <= j < s.len() && (#[trigger] s[j]).0 == k;
    assert(i == j);
}

/// The connection intents that the client has sent and not yet seen answered.
pub struct SentConnectionIntents {
    inner: Vec<(u64, u128)>,
}

impl View for SentConnectionIntents {
    type V = Map<u64, u128>;

    closed spec fn view(&self) -> Map<u64, u128> {
        entries_map(self.inner@)
    }
}

impl SentConnectionIntents {
    pub closed spec fn wf(&self) -> bool {
        keys_unique(self.inner@)
    }

    pub fn new() -> (r: Self)
        ensures
            r.wf(),
            r@ == Map::<u64, u128>::empty(),
    {
        let r = SentConnectionIntents { inner: Vec::new() };
        assert(r@ =~= Map::<u64, u128>::empty());
        r
    }

    /// The entries that stay when those with key `key`, or with resource
    /// `res`, are dropped.
    fn entries_without(&self, key: Option<u64>, res: Option<u128>) -> (out: Vec<(u64, u128)>)
        requires
            self.wf(),
        ensures
            keys_unique(out@),
            forall|j: int| 0 <= j < out@.len() ==> keeps(key, res, #[trigger] out@[j]),
            entries_map(out@) == Map::new(
                |k: u64| self@.contains_key(k) && keeps(key, res, (k, self@[k])),
                |k: u64| self@[k],
            ),
    {
        let ghost old_s = self.inner@;
        let mut out: Vec<(u64, u128)> = Vec::new();
        let mut i: usize = 0;
        while i < self.inner.len()
            invariant
                old_s == self.inner@,
                keys_unique(old_s),
                0 <= i <= old_s.len(),
                keys_unique(out@),
                forall|j: int| 0 <= j < out@.len() ==> keeps(key, res, #[trigger] out@[j]),
                forall|j: int|
                    0 <= j < out@.len() ==> exists|x: int| 0 <= x < i && old_s[x] == #[trigger] out@[j],
                forall|x: int|
                    0 <= x < i && keeps(key, res, #[trigger] old_s[x]) ==> exists|j: int|
                        0 <= j < out@.len() && out@[j] == old_s[x],
            decreases old_s.len() - i,
        {
            let e = self.inner[i];
            let ghost prev = out@;
            let drop_it = match key {
                Some(k) => e.0 == k,
                None => false,
            } || match res {
                Some(r) => e.1 == r,
                None => false,
            };
            if !drop_it {
                proof {
                    assert forall|j: int| 0 <= j < out@.len() implies (#[trigger] out@[j]).0 != e.0 by {
                        let x = choose|x: int| 0 <= x < i && old_s[x] == out@[j];
                        assert(x != i as int);
                    }
                }
                out.push(e);
            }
            proof {
                assert forall|j: int| 0 <= j < out@.len() implies exists|x: int|
                    0 <= x < i + 1 && old_s[x] == #[trigger] out@[j] by {
                    if j < prev.len() {
                        assert(out@[j] == prev[j]);
                        let x = choose|x: int| 0 <= x < i && old_s[x] == prev[j];
                        assert(old_s[x] == out@[j]);
                    } else {
                        assert(old_s[i as int] == out@[j]);
                    }
                }
                assert forall|x: int| 0 <= x < i + 1 && keeps(key, res, #[trigger] old_s[x]) implies exists|j: int|
                    0 <= j < out@.len() && out@[j] == old_s[x] by {
                    if x < i {
                        let j = choose|j: int| 0 <= j < prev.len() && prev[j] == old_s[x];
                        assert(out@[j] == prev[j]);
                    } else {
                        assert(out@[prev.len() as int] == old_s[x]);
                    }
                }
            }
            i += 1;
        }
        proof {
            let m = entries_map(out@);
            let want = Map::new(
                |k: u64| self@.contains_key(k) && keeps(key, res, (k, self@[k])),
                |k: u64| self@[k],
            );
            assert forall|k: u64| #[trigger] m.contains_key(k) <==> want.contains_key(k) by {
                if m.contains_key(k) {
                    let j = choose|j: int| 0 <= j < out@.len() && (#[trigger] out@[j]).0 == k;
                    let x = choose|x: int| 0 <= x < i && old_s[x] == out@[j];
                    lemma_entry_in_map(old_s, x);
                }
                if want.contains_key(k) {
                    let x = choose|x: int| 0 <= x < old_s.len() && (#[trigger] old_s[x]).0 == k;
                    lemma_entry_in_map(old_s, x);
                    let j = choose|j: int| 0 <= j < out@.len() && out@[j] == old_s[x];
                    assert(out@[j].0 == k);
                }
            }
            assert forall|k: u64| #[trigger] m.contains_key(k) implies m[k] == want[k] by {
                let j = choose|j: int| 0 <= j < out@.len() && (#[trigger] out@[j]).0 == k;
                lemma_entry_in_map(out@, j);
                let x = choose|x: int| 0 <= x < i && old_s[x] == out@[j];
                lemma_entry_in_map(old_s, x);
            }
            assert(m =~= want);
        }
        out
    }

    /// Records that request `id` asked for a connection to `resource`.
    pub fn register_new_intent(&mut self, id: OutboundRequestId, resource: ResourceId)
        requires
            old(self).wf(),
        ensures
            final(self).wf(),
            final(self)@ == old(self)@.insert(id@, resource@),
    {
        let key = id.value();
        let mut out = self.entries_without(Some(key), None);
        let ghost pre = out@;
        out.push((key, resource.as_u128()));
        let ghost n = out@.len();
        proof {
            assert(out@[n - 1] == (key, resource@));
            assert forall|j: int| 0 <= j < n - 1 implies #[trigger] out@[j] == pre[j] by {}
            assert forall|a: int, b: int|
                0 <= a < out@.len() && 0 <= b < out@.len() && a != b implies (#[trigger] out@[a]).0
                != (#[trigger] out@[b]).0 by {
                if a < n - 1 && b < n - 1 {
                    assert(out@[a] == pre[a] && out@[b] == pre[b]);
                } else if a < n - 1 {
                    assert(out@[a] == pre[a]);
                    assert(keeps(Some(key), None, pre[a]));
                } else if b < n - 1 {
                    assert(out@[b] == pre[b]);
                    assert(keeps(Some(key), None, pre[b]));
                }
            }
            let m = entries_map(out@);
            let want = old(self)@.insert(key, resource@);
            assert forall|k: u64| #[trigger] m.contains_key(k) <==> want.contains_key(k) by {
                if m.contains_key(k) && k != key {
                    let j = choose|j: int| 0 <= j < out@.len() && (#[trigger] out@[j]).0 == k;
                    assert(out@[j] == pre[j]);
                    assert(entries_map(pre).contains_key(k));
                }
                if want.contains_key(k) && k != key {
                    assert(entries_map(pre).contains_key(k));
                    let j = choose|j: int| 0 <= j < pre.len() && (#[trigger] pre[j]).0 == k;
                    assert(out@[j] == pre[j]);
                }
                if k == key {
                    lemma_entry_in_map(out@, n - 1);
                }
            }
            assert forall|k: u64| #[trigger] m.contains_key(k) implies m[k] == want[k] by {
                let j = choose|j: int| 0 <= j < out@.len() && (#[trigger] out@[j]).0 == k;
                lemma_entry_in_map(out@, j);
                if k != key {
                    assert(j != n - 1);
                    assert(out@[j] == pre[j]);
                    lemma_entry_in_map(pre, j);
                }
            }
            assert(m =~= want);
        }
        self.inner = out;
    }

    /// Decides whether the connection details that the portal sent for
    /// request `reference` and resource `r` are to be used.
    ///
    /// They are only when `reference` is the latest intent still registered
    /// for `r`; then every intent for `r` is forgotten.
    pub fn handle_connection_details_received(
        &mut self,
        reference: OutboundRequestId,
        r: ResourceId,
    ) -> (accepted: bool)
        requires
            old(self).wf(),
        ensures
            final(self).wf(),
            accepted == is_latest_intent(old(self)@, reference@, r@),
            accepted ==> final(self)@ == without_resource(old(self)@, r@),
            !accepted ==> final(self)@ == old(self)@,
    {
        let reference = reference.value();
        let res = r.as_u128();
        let mut has_more_recent_intent = false;
        let mut has_intent = false;
        let mut i: usize = 0;
        while i < self.inner.len()
            invariant
                self.wf(),
                0 <= i <= self.inner@.len(),
                has_more_recent_intent <==> exists|x: int|
                    0 <= x < i && (#[trigger] self.inner@[x]).0 > reference && self.inner@[x].1 == res,
                has_intent <==> exists|x: int|
                    0 <= x < i && (#[trigger] self.inner@[x]) == (reference, res),
            decreases self.inner@.len() - i,
        {
            let e = self.inner[i];
            if e.0 > reference && e.1 == res {
                has_more_recent_intent = true;
            }
            if e.0 == reference && e.1 == res {
                has_intent = true;
            }
            i += 1;
        }
        proof {
            let m = self@;
            let s = self.inner@;
            if has_more_recent_intent {
                let x = choose|x: int| 0 <= x < i && (#[trigger] s[x]).0 > reference && s[x].1 == res;
                lemma_entry_in_map(s, x);
            } else if has_intent {
                let x = choose|x: int| 0 <= x < i && (#[trigger] s[x]) == (reference, res);
                lemma_entry_in_map(s, x);
                assert forall|k: u64| #[trigger] m.contains_key(k) && m[k] == res implies k <= reference by {
                    let y = choose|y: int| 0 <= y < s.len() && (#[trigger] s[y]).0 == k;
                    lemma_entry_in_map(s, y);
                }
            } else if m.contains_key(reference) {
                let y = choose|y: int| 0 <= y < s.len() && (#[trigger] s[y]).0 == reference;
                lemma_entry_in_map(s, y);
            }
        }
        if has_more_recent_intent || !has_intent {
            return false;
        }
        let out = self.entries_without(None, Some(res));
        proof {
            assert(without_resource(self@, res) =~= Map::new(
                |k: u64| self@.contains_key(k) && keeps(None, Some(res), (k, self@[k])),
                |k: u64| self@[k],
            ));
        }
        self.inner = out;
        true
    }

    /// Forgets the intent of request `req`, giving back its resource.
    pub fn handle_error(&mut self, req: OutboundRequestId) -> (r: Option<ResourceId>)
        requires
            old(self).wf(),
        ensures
            final(self).wf(),
            final(self)@ == old(self)@.remove(req@),
            match r {
                Some(res) => old(self)@.contains_key(req@) && res@ == old(self)@[req@],
                None => !old(self)@.contains_key(req@),
            },
    {
        let key = req.value();
        let mut found: Option<ResourceId> = None;
        let mut i: usize = 0;
        while i < self.inner.len()
            invariant
                self.wf(),
                0 <= i <= self.inner@.len(),
                match found {
                    Some(res) => exists|x: int|
                        0 <= x < i && (#[trigger] self.inner@[x]) == (key, res@),
                    None => forall|x: int| 0 <= x < i ==> (#[trigger] self.inner@[x]).0 != key,
                },
            decreases self.inner@.len() - i,
        {
            let e = self.inner[i];
            if e.0 == key {
                found = Some(ResourceId(e.1));
            }
            i += 1;
        }
        proof {
            let s = self.inner@;
            match found {
                Some(res) => {
                    let x = choose|x: int| 0 <= x < i && (#[trigger] s[x]) == (key, res@);
                    lemma_entry_in_map(s, x);
                },
                None => {},
            }
        }
        let out = self.entries_without(Some(key), None);
        proof {
            assert(self@.remove(key) =~= Map::new(
                |k: u64| self@.contains_key(k) && keeps(Some(key), None, (k, self@[k])),
                |k: u64| self@[k],
            ));
        }
        self.inner = out;
        found
    }
}

impl Default for SentConnectionIntents {
    fn default() -> (r: Self)
        ensures
            r.wf(),
            r@ == Map::<u64, u128>::empty(),
    {
        SentConnectionIntents::new()
    }
}

/// Asks the portal, on `topic`, to prepare a connection to `resource`, and
/// remembers the request as the latest intent for it.
pub fn send_connection_intent<T: Clone>(
    portal: &mut PhoenixChannel<T>,
    intents: &mut SentConnectionIntents,
    topic: String,
    prepare_connection: T,
    resource: ResourceId,
) -> (id: OutboundRequestId)
    requires
        old(intents).wf(),
    ensures
        final(intents).wf(),
        id@ == old(portal).spec_next_request_id(),
        final(portal).spec_next_request_id() == next_id(old(portal).spec_next_request_id()),
        final(portal).spec_queue().len() == old(portal).spec_queue().len() + 1,
        final(portal).spec_queue().drop_last() == old(portal).spec_queue(),
        final(portal).spec_queue().last().reference == id,
        final(intents)@ == old(intents)@.insert(id@, resource@),
{
    let id = portal.send(topic, prepare_connection);
    intents.register_new_intent(id.copy(), resource);
    id
}

/// What the client does about an error reply from the portal.
#[derive(Debug, Clone, PartialEq, Eq)]
pub enum ErrorAction {
    /// The resource of the failed intent is offline.
    SetResourceOffline(ResourceId),
    /// The topic is to be joined again.
    Rejoin(String),
    Ignore,
}

/// Decides what to do about error reply `res` to request `req_id` on
/// `topic`: an `Offline` reply marks the intent's resource offline and
/// forgets the intent; `UnmatchedTopic` joins the topic again; any other is
/// only logged.
pub fn handle_portal_error_reply(
    intents: &mut SentConnectionIntents,
    res: ErrorReply,
    topic: String,
    req_id: OutboundRequestId,
) -> (r: ErrorAction)
    requires
        old(intents).wf(),
    ensures
        final(intents).wf(),
        res == ErrorReply::Offline ==> {
            &&& final(intents)@ == old(intents)@.remove(req_id@)
            &&& if old(intents)@.contains_key(req_id@) {
                r matches ErrorAction::SetResourceOffline(rid) && rid@ == old(intents)@[req_id@]
            } else {
                r == ErrorAction::Ignore
            }
        },
        res == ErrorReply::UnmatchedTopic ==> final(intents)@ == old(intents)@ && (r matches ErrorAction::Rejoin(t) && t@ == topic@),
        res != ErrorReply::Offline && res != ErrorReply::UnmatchedTopic ==> final(intents)@ == old(intents)@
            && r == ErrorAction::Ignore,
{
    match res {
        ErrorReply::Offline => match intents.handle_error(req_id) {
            Some(rid) => ErrorAction::SetResourceOffline(rid),
            None => ErrorAction::Ignore,
        },
        ErrorReply::UnmatchedTopic => ErrorAction::Rejoin(topic),
        _ => ErrorAction::Ignore,
    }
}

/// Whether an entry stays when those with key `key` or resource `res` go.
pub open spec fn keeps(key: Option<u64>, res: Option<u128>, e: (u64, u128)) -> bool {
    key != Some(e.0) && res != Some(e.1)
}

} // verus!
