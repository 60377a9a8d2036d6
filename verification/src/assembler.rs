//! Per-session fragment reassembly: complete messages are rebuilt from an
//! unordered stream of fragments arriving from many peers concurrently,
//! keyed by (origin peer, session id), and each session completes at most
//! once.
//!
//! Memory is bounded by count: when a fragment would open a new session
//! while as many incomplete sessions are tracked as the configured limit
//! allows, the oldest incomplete session is evicted first and its fragments
//! are dropped. Completed sessions stay as markers so that late duplicates
//! of a finished message are discarded silently.

use vstd::prelude::*;
use crate::routing::{chunks, concat_pieces, lemma_chunks_concat, lemma_chunks_len};

verus! {

/// One fragment of a logical message: origin peer, session, slot index,
/// total slot count, and the slot's bytes.
#[derive(Debug, PartialEq, Eq)]
pub struct Fragment {
    pub origin: u64,
    pub session_id: u64,
    pub index: u32,
    pub total: u32,
    pub payload: Vec<u8>,
}

/// Spec-level image of a fragment.
pub struct FragModel {
    pub origin: u64,
    pub session_id: u64,
    pub index: u32,
    pub total: u32,
    pub payload: Seq<u8>,
}

impl View for Fragment {
    type V = FragModel;

    open spec fn view(&self) -> FragModel {
        FragModel {
            origin: self.origin,
            session_id: self.session_id,
            index: self.index,
            total: self.total,
            payload: self.payload@,
        }
    }
}

/// Why a fragment was refused.
#[derive(Clone, Copy, Debug, PartialEq, Eq, Structural)]
pub enum FeedError {
    /// `total` is zero or `index` is not below `total`.
    Malformed,
    /// The fragment's `total` contradicts the session it belongs to.
    TotalMismatch,
}

/// Spec-level image of one reassembly session.
pub struct SessionModel {
    pub origin: u64,
    pub session_id: u64,
    pub total: u32,
    pub slots: Seq<Option<Seq<u8>>>,
    pub complete: bool,
}

/// The bytes a slot holds; an empty slot counts as no bytes.
pub open spec fn slot_bytes(o: Option<Seq<u8>>) -> Seq<u8> {
    match o {
        Some(p) => p,
        None => Seq::empty(),
    }
}

/// How many slots are filled.
pub open spec fn count_filled(slots: Seq<Option<Seq<u8>>>) -> nat
    decreases slots.len(),
{
    if slots.len() == 0 {
        0
    } else {
        (if slots[0] is Some {
            1nat
        } else {
            0nat
        }) + count_filled(slots.skip(1))
    }
}

/// The slots' bytes, concatenated in index order.
pub open spec fn concat_slots(slots: Seq<Option<Seq<u8>>>) -> Seq<u8>
    decreases slots.len(),
{
    if slots.len() == 0 {
        Seq::empty()
    } else {
        slot_bytes(slots[0]) + concat_slots(slots.skip(1))
    }
}

/// The position of the session keyed `(origin, sid)`, or -1 when none is.
pub open spec fn find_key(ss: Seq<SessionModel>, origin: u64, sid: u64) -> int
    decreases ss.len(),
{
    if ss.len() == 0 {
        -1
    } else if ss[0].origin == origin && ss[0].session_id == sid {
        0
    } else {
        let r = find_key(ss.skip(1), origin, sid);
        if r == -1 {
            -1
        } else {
            r + 1
        }
    }
}

/// How many tracked sessions are still incomplete.
pub open spec fn incomplete_count(ss: Seq<SessionModel>) -> nat
    decreases ss.len(),
{
    if ss.len() == 0 {
        0
    } else {
        (if ss[0].complete {
            0nat
        } else {
            1nat
        }) + incomplete_count(ss.skip(1))
    }
}

/// The position of the oldest incomplete session, or -1 when none is.
pub open spec fn first_incomplete(ss: Seq<SessionModel>) -> int
    decreases ss.len(),
{
    if ss.len() == 0 {
        -1
    } else if !ss[0].complete {
        0
    } else {
        let r = first_incomplete(ss.skip(1));
        if r == -1 {
            -1
        } else {
            r + 1
        }
    }
}

/// The session list once the oldest incomplete session is evicted.
pub open spec fn evict_one(ss: Seq<SessionModel>) -> Seq<SessionModel> {
    if first_incomplete(ss) >= 0 {
        ss.remove(first_incomplete(ss))
    } else {
        ss
    }
}

/// A session just opened for `total` slots, all empty.
pub open spec fn fresh_session(origin: u64, sid: u64, total: u32) -> SessionModel {
    SessionModel {
        origin,
        session_id: sid,
        total,
        slots: Seq::new(total as nat, |i: int| None),
        complete: false,
    }
}

/// Storing `payload` at `index`: the session after the store, and the
/// reconstructed message when the store filled the last empty slot.
pub open spec fn fill_session(s: SessionModel, index: int, payload: Seq<u8>) -> (
    SessionModel,
    Option<Seq<u8>>,
) {
    let slots2 = s.slots.update(index, Some(payload));
    if count_filled(slots2) == s.total {
        (SessionModel { complete: true, slots: slots2, ..s }, Some(concat_slots(slots2)))
    } else {
        (SessionModel { slots: slots2, ..s }, None)
    }
}

/// What one feed does: the sessions afterwards, the message completed by it
/// if any, and the error it was refused with if any.
pub struct FeedOutcome {
    pub sessions: Seq<SessionModel>,
    pub output: Option<Seq<u8>>,
    pub err: Option<FeedError>,
}

/// The assembler's whole transition on one fragment.
pub open spec fn feed_spec(ss: Seq<SessionModel>, cap: nat, f: FragModel) -> FeedOutcome {
    if f.total == 0 || f.index >= f.total {
        FeedOutcome { sessions: ss, output: None, err: Some(FeedError::Malformed) }
    } else {
        let i = find_key(ss, f.origin, f.session_id);
        if i >= 0 {
            let s = ss[i];
            if s.complete {
                FeedOutcome { sessions: ss, output: None, err: None }
            } else if f.total != s.total {
                FeedOutcome { sessions: ss, output: None, err: Some(FeedError::TotalMismatch) }
            } else {
                let so = fill_session(s, f.index as int, f.payload);
                FeedOutcome { sessions: ss.update(i, so.0), output: so.1, err: None }
            }
        } else {
            let base = if incomplete_count(ss) >= cap {
                evict_one(ss)
            } else {
                ss
            };
            let so = fill_session(fresh_session(f.origin, f.session_id, f.total), f.index as int, f.payload);
            FeedOutcome { sessions: base.push(so.0), output: so.1, err: None }
        }
    }
}

/// A session's own invariant: at least one slot, as many slots as `total`,
/// and complete exactly when every slot is filled.
pub open spec fn session_wf(s: SessionModel) -> bool {
    &&& s.total >= 1
    &&& s.slots.len() == s.total
    &&& (s.complete <==> count_filled(s.slots) == s.total)
}

/// The assembler's invariant over its model: a limit of at least one, unique
/// session keys, well-formed sessions, and no more incomplete sessions than
/// the limit allows.
pub open spec fn model_wf(ss: Seq<SessionModel>, cap: nat) -> bool {
    &&& cap >= 1
    &&& forall|i: int, j: int|
        #![trigger ss[i].origin, ss[j].origin]
        0 <= i < j < ss.len() ==> !(ss[i].origin == ss[j].origin && ss[i].session_id
            == ss[j].session_id)
    &&& forall|i: int| 0 <= i < ss.len() ==> session_wf(#[trigger] ss[i])
    &&& incomplete_count(ss) <= cap
}

/// One tracked reassembly session.
pub(crate) struct Session {
    pub(crate) origin: u64,
    pub(crate) session_id: u64,
    pub(crate) total: u32,
    pub(crate) slots: Vec<Option<Vec<u8>>>,
    pub(crate) filled: u32,
    pub(crate) complete: bool,
}

/// A slot as the model sees it.
pub open spec fn slot_view(o: Option<Vec<u8>>) -> Option<Seq<u8>> {
    match o {
        Some(v) => Some(v@),
        None => None,
    }
}

impl View for Session {
    type V = SessionModel;

    closed spec fn view(&self) -> SessionModel {
        SessionModel {
            origin: self.origin,
            session_id: self.session_id,
            total: self.total,
            slots: self.slots@.map_values(|o: Option<Vec<u8>>| slot_view(o)),
            complete: self.complete,
        }
    }
}

/// The reassembly engine: every tracked session, and the incomplete-session
/// limit the eviction policy enforces.
pub struct FragmentAssembler {
    sessions: Vec<Session>,
    limit: usize,
}

impl View for FragmentAssembler {
    type V = Seq<SessionModel>;

    closed spec fn view(&self) -> Seq<SessionModel> {
        self.sessions@.map_values(|s: Session| s@)
    }
}

impl FragmentAssembler {
    /// The configured incomplete-session limit.
    pub closed spec fn cap(&self) -> nat {
        self.limit as nat
    }

    /// The assembler's invariant; established by `new`, kept by `feed`.
    pub closed spec fn wf(&self) -> bool {
        &&& model_wf(self@, self.cap())
        &&& forall|i: int|
            0 <= i < self.sessions@.len() ==> (#[trigger] self.sessions@[i]).filled
                == count_filled(self.sessions@[i]@.slots)
    }

    /// `wf` carries the model invariant.
    pub proof fn lemma_wf_model(&self)
        requires
            self.wf(),
        ensures
            model_wf(self@, self.cap()),
    {
    }

    /// An empty assembler that tracks at most `limit` incomplete sessions.
    pub fn new(limit: usize) -> (a: FragmentAssembler)
        requires
            limit >= 1,
        ensures
            a.wf(),
            a@ == Seq::<SessionModel>::empty(),
            a.cap() == limit,
    {
        let a = FragmentAssembler { sessions: Vec::new(), limit };
        proof {
            assert(a@ =~= Seq::<SessionModel>::empty());
        }
        a
    }

    /// Feeds one fragment. Returns the reconstructed message when this
    /// fragment completed its session; an error when the fragment is
    /// malformed or contradicts its session's total, in which case every
    /// tracked session stands unchanged.
    pub fn feed(&mut self, f: Fragment) -> (r: Result<Option<Vec<u8>>, FeedError>)
        requires
            old(self).wf(),
        ensures
            final(self).wf(),
            final(self).cap() == old(self).cap(),
            ({
                let o = feed_spec(old(self)@, old(self).cap(), f@);
                &&& final(self)@ == o.sessions
                &&& match r {
                    Ok(out) => o.err is None && (match out {
                        Some(v) => o.output == Some(v@),
                        None => o.output is None,
                    }),
                    Err(e) => o.err == Some(e) && o.output is None,
                }
            }),
            r is Err ==> final(self)@ == old(self)@,
            (f@.total == 0 || f@.index >= f@.total) ==> r == Err::<Option<Vec<u8>>, FeedError>(
                FeedError::Malformed,
            ),
    {
        if f.total == 0 || f.index >= f.total {
            return Err(FeedError::Malformed);
        }
        let ghost pre = self@;
        let ghost cap = self.cap();
        let mut i: usize = 0;
        while i < self.sessions.len()
            invariant
                self == old(self),
                old(self).wf(),
                pre == self@,
                cap == self.cap(),
                f@.total >= 1,
                f@.index < f@.total,
                i <= self.sessions.len(),
                self@.len() == self.sessions@.len(),
                forall|j: int| 0 <= j < self@.len() ==> self@[j] == self.sessions@[j]@,
                forall|j: int|
                    0 <= j < i ==> !((#[trigger] self@[j]).origin == f@.origin
                        && self@[j].session_id == f@.session_id),
            decreases self.sessions.len() - i,
        {
            if self.sessions[i].origin == f.origin && self.sessions[i].session_id == f.session_id {
                proof {
                    lemma_find_key_first(self@, f@.origin, f@.session_id, i as int);
                }
                if self.sessions[i].complete {
                    return Ok(None);
                }
                if self.sessions[i].total != f.total {
                    return Err(FeedError::TotalMismatch);
                }
                let mut s = self.sessions.remove(i);
                let out = fill_slot(&mut s, f.index, f.payload);
                self.sessions.insert(i, s);
                proof {
                    assert(self.sessions@ =~= old(self).sessions@.update(i as int, s));
                    assert(self@ =~= pre.update(i as int, s@));
                    lemma_wf_after_update(pre, cap, i as int, s@);
                    assert forall|t: int|
                        0 <= t < self.sessions@.len() implies (#[trigger] self.sessions@[t]).filled
                        == count_filled(self.sessions@[t]@.slots) by {
                        if t != i as int {
                            assert(self.sessions@[t] == old(self).sessions@[t]);
                        }
                    }
                }
                return Ok(out);
            }
            i += 1;
        }
        proof {
            lemma_find_key_none(self@, f@.origin, f@.session_id);
        }
        let mut cnt: usize = 0;
        let mut j: usize = 0;
        while j < self.sessions.len()
            invariant
                self == old(self),
                old(self).wf(),
                pre == self@,
                cap == self.cap(),
                f@.total >= 1,
                f@.index < f@.total,
                find_key(pre, f@.origin, f@.session_id) == -1,
                j <= self.sessions.len(),
                self@.len() == self.sessions@.len(),
                cnt <= j,
                cnt == incomplete_count(self@.take(j as int)),
            decreases self.sessions.len() - j,
        {
            proof {
                lemma_incomplete_count_snoc(self@, j as int);
            }
            if !self.sessions[j].complete {
                cnt += 1;
            }
            j += 1;
        }
        proof {
            assert(self@.take(self@.len() as int) =~= self@);
        }
        let ghost base = if incomplete_count(pre) >= cap {
            evict_one(pre)
        } else {
            pre
        };
        if cnt >= self.limit {
            proof {
                assert(incomplete_count(pre) >= 1);
            }
            self.evict_oldest_incomplete();
        }
        proof {
            assert(self@ == base);
            lemma_absent_after_evict(pre, base, f@.origin, f@.session_id);
        }
        let ghost sb = self.sessions@;
        let slots = make_slots(f.total);
        let mut s = Session {
            origin: f.origin,
            session_id: f.session_id,
            total: f.total,
            slots,
            filled: 0,
            complete: false,
        };
        proof {
            lemma_count_filled_all_none(s@.slots);
            assert(s@ =~= fresh_session(f@.origin, f@.session_id, f@.total));
        }
        let out = fill_slot(&mut s, f.index, f.payload);
        self.sessions.push(s);
        proof {
            assert(self.sessions@ =~= sb.push(s));
            assert(self@ =~= base.push(s@));
            lemma_wf_after_push(pre, base, cap, s@, f@.origin, f@.session_id);
            assert forall|t: int|
                0 <= t < self.sessions@.len() implies (#[trigger] self.sessions@[t]).filled
                == count_filled(self.sessions@[t]@.slots) by {
                if t < self.sessions@.len() - 1 {
                    assert(self.sessions@[t] == sb[t]);
                }
            }
        }
        Ok(out)
    }

    /// Removes the oldest incomplete session.
    fn evict_oldest_incomplete(&mut self)
        requires
            incomplete_count(old(self)@) >= 1,
            forall|i: int|
                0 <= i < old(self).sessions@.len() ==> (#[trigger] old(self).sessions@[i]).filled
                    == count_filled(old(self).sessions@[i]@.slots),
        ensures
            final(self)@ == evict_one(old(self)@),
            final(self).cap() == old(self).cap(),
            incomplete_count(final(self)@) == incomplete_count(old(self)@) - 1,
            forall|i: int|
                0 <= i < final(self).sessions@.len() ==> (#[trigger] final(self).sessions@[i]).filled
                    == count_filled(final(self).sessions@[i]@.slots),
    {
        let ghost pre = self@;
        let mut e: usize = 0;
        while e < self.sessions.len()
            invariant
                self == old(self),
                pre == self@,
                e <= self.sessions.len(),
                self@.len() == self.sessions@.len(),
                forall|i: int|
                    0 <= i < self.sessions@.len() ==> (#[trigger] self.sessions@[i]).filled
                        == count_filled(self.sessions@[i]@.slots),
                forall|t: int| 0 <= t < e ==> (#[trigger] self@[t]).complete,
                incomplete_count(self@) >= 1,
            decreases self.sessions.len() - e,
        {
            if !self.sessions[e].complete {
                proof {
                    lemma_first_incomplete_at(self@, e as int);
                    lemma_incomplete_count_remove(self@, e as int);
                }
                self.sessions.remove(e);
                proof {
                    assert(self@ =~= pre.remove(e as int));
                    assert forall|t: int|
                        0 <= t < self.sessions@.len() implies (#[trigger] self.sessions@[t]).filled
                        == count_filled(self.sessions@[t]@.slots) by {
                        let t2: int = if t < e as int {
                            t
                        } else {
                            t + 1
                        };
                        assert(self.sessions@[t] == old(self).sessions@[t2]);
                    }
                }
                return;
            }
            e += 1;
        }
        proof {
            lemma_all_complete_count_zero(self@);
            assert(false);
        }
    }
}

/// Stores `payload` at slot `index` of an incomplete session; completes the
/// session and hands the message back when that was the last empty slot.
fn fill_slot(s: &mut Session, index: u32, payload: Vec<u8>) -> (out: Option<Vec<u8>>)
    requires
        session_wf(old(s)@),
        !old(s)@.complete,
        old(s).filled == count_filled(old(s)@.slots),
        index < old(s)@.total,
    ensures
        final(s)@ == fill_session(old(s)@, index as int, payload@).0,
        final(s).filled == count_filled(final(s)@.slots),
        session_wf(final(s)@),
        match out {
            Some(v) => fill_session(old(s)@, index as int, payload@).1 == Some(v@),
            None => fill_session(old(s)@, index as int, payload@).1 is None,
        },
{
    let idx = index as usize;
    proof {
        lemma_count_filled_le(old(s)@.slots);
    }
    let prev = s.slots.remove(idx);
    s.slots.insert(idx, Some(payload));
    proof {
        assert(s.slots@ =~= old(s).slots@.update(idx as int, Some(payload)));
        assert(s@.slots =~= old(s)@.slots.update(idx as int, Some(payload@)));
        lemma_count_filled_update(old(s)@.slots, idx as int, Some(payload@));
    }
    if prev.is_none() {
        s.filled = s.filled + 1;
    }
    if s.filled == s.total {
        s.complete = true;
        let out = concat_filled(&s.slots);
        Some(out)
    } else {
        None
    }
}

/// `total` empty slots.
fn make_slots(total: u32) -> (slots: Vec<Option<Vec<u8>>>)
    ensures
        slots@.map_values(|o: Option<Vec<u8>>| slot_view(o)) =~= Seq::new(
            total as nat,
            |i: int| None::<Seq<u8>>,
        ),
        slots@.len() == total,
{
    let mut slots: Vec<Option<Vec<u8>>> = Vec::new();
    let mut i: usize = 0;
    while i < total as usize
        invariant
            i <= total as usize,
            slots@.len() == i,
            forall|j: int| 0 <= j < i ==> slots@[j] is None,
        decreases total as usize - i,
    {
        slots.push(None);
        i += 1;
    }
    slots
}

/// Concatenates the filled slots' bytes in index order.
fn concat_filled(slots: &Vec<Option<Vec<u8>>>) -> (out: Vec<u8>)
    ensures
        out@ == concat_slots(slots@.map_values(|o: Option<Vec<u8>>| slot_view(o))),
{
    let ghost model = slots@.map_values(|o: Option<Vec<u8>>| slot_view(o));
    let mut out: Vec<u8> = Vec::new();
    let mut i: usize = 0;
    while i < slots.len()
        invariant
            i <= slots.len(),
            model == slots@.map_values(|o: Option<Vec<u8>>| slot_view(o)),
            model.len() == slots@.len(),
            out@ == concat_slots(model.take(i as int)),
        decreases slots.len() - i,
    {
        proof {
            lemma_concat_slots_snoc(model, i as int);
        }
        match &slots[i] {
            Some(v) => {
                crate::protocol::append_bytes(&mut out, v);
            },
            None => {
                proof {
                    assert(out@ + Seq::<u8>::empty() =~= out@);
                }
            },
        }
        i += 1;
    }
    proof {
        assert(model.take(model.len() as int) =~= model);
    }
    out
}

/// When no session among the first `i` carries the key and the `i`-th does,
/// the key search lands on `i`.
pub proof fn lemma_find_key_first(ss: Seq<SessionModel>, origin: u64, sid: u64, i: int)
    requires
        0 <= i < ss.len(),
        forall|j: int|
            0 <= j < i ==> !((#[trigger] ss[j]).origin == origin && ss[j].session_id == sid),
        ss[i].origin == origin && ss[i].session_id == sid,
    ensures
        find_key(ss, origin, sid) == i,
    decreases i,
{
    if i > 0 {
        lemma_find_key_first(ss.skip(1), origin, sid, i - 1);
    }
}

/// When no session carries the key, the key search comes back empty.
pub proof fn lemma_find_key_none(ss: Seq<SessionModel>, origin: u64, sid: u64)
    requires
        forall|j: int|
            0 <= j < ss.len() ==> !((#[trigger] ss[j]).origin == origin && ss[j].session_id
                == sid),
    ensures
        find_key(ss, origin, sid) == -1,
    decreases ss.len(),
{
    if ss.len() > 0 {
        lemma_find_key_none(ss.skip(1), origin, sid);
    }
}

/// A key search lands inside the sessions or comes back empty.
pub proof fn lemma_find_key_range(ss: Seq<SessionModel>, origin: u64, sid: u64)
    ensures
        -1 <= find_key(ss, origin, sid) < ss.len(),
    decreases ss.len(),
{
    if ss.len() > 0 {
        lemma_find_key_range(ss.skip(1), origin, sid);
    }
}

/// The oldest-incomplete search lands inside the sessions or comes back
/// empty.
pub proof fn lemma_first_incomplete_range(ss: Seq<SessionModel>)
    ensures
        -1 <= first_incomplete(ss) < ss.len(),
    decreases ss.len(),
{
    if ss.len() > 0 {
        lemma_first_incomplete_range(ss.skip(1));
    }
}

/// An empty key search means no session carries the key.
pub proof fn lemma_find_key_none_forall(ss: Seq<SessionModel>, origin: u64, sid: u64)
    requires
        find_key(ss, origin, sid) == -1,
    ensures
        forall|j: int|
            0 <= j < ss.len() ==> !((#[trigger] ss[j]).origin == origin && ss[j].session_id
                == sid),
    decreases ss.len(),
{
    if ss.len() > 0 {
        lemma_find_key_range(ss.skip(1), origin, sid);
        lemma_find_key_none_forall(ss.skip(1), origin, sid);
        assert forall|j: int|
            0 <= j < ss.len() implies !((#[trigger] ss[j]).origin == origin && ss[j].session_id
            == sid) by {
            if j > 0 {
                assert(ss[j] == ss.skip(1)[j - 1]);
            }
        }
    }
}

/// Filled slots never outnumber slots.
pub proof fn lemma_count_filled_le(slots: Seq<Option<Seq<u8>>>)
    ensures
        count_filled(slots) <= slots.len(),
    decreases slots.len(),
{
    if slots.len() > 0 {
        lemma_count_filled_le(slots.skip(1));
    }
}

/// All slots empty: none filled.
pub proof fn lemma_count_filled_all_none(slots: Seq<Option<Seq<u8>>>)
    requires
        forall|i: int| 0 <= i < slots.len() ==> slots[i] is None,
    ensures
        count_filled(slots) == 0,
    decreases slots.len(),
{
    if slots.len() > 0 {
        assert forall|i: int| 0 <= i < slots.skip(1).len() implies slots.skip(1)[i] is None by {
            assert(slots.skip(1)[i] == slots[i + 1]);
        }
        lemma_count_filled_all_none(slots.skip(1));
    }
}

/// Filling one slot raises the filled count by one when the slot was empty
/// and leaves it unchanged when it was already filled.
pub proof fn lemma_count_filled_update(slots: Seq<Option<Seq<u8>>>, i: int, v: Option<Seq<u8>>)
    requires
        0 <= i < slots.len(),
        v is Some,
    ensures
        count_filled(slots.update(i, v)) == count_filled(slots) + (if slots[i] is Some {
            0int
        } else {
            1int
        }),
    decreases slots.len(),
{
    if i == 0 {
        assert(slots.update(0, v).skip(1) =~= slots.skip(1));
    } else {
        lemma_count_filled_update(slots.skip(1), i - 1, v);
        assert(slots.update(i, v).skip(1) =~= slots.skip(1).update(i - 1, v));
        assert(slots.update(i, v)[0] == slots[0]);
    }
}

/// Concatenating one slot more appends that slot's bytes.
pub proof fn lemma_concat_slots_snoc(slots: Seq<Option<Seq<u8>>>, i: int)
    requires
        0 <= i < slots.len(),
    ensures
        concat_slots(slots.take(i + 1)) == concat_slots(slots.take(i)) + slot_bytes(slots[i]),
    decreases i,
{
    if i == 0 {
        let t = slots.take(1);
        assert(t.skip(1) =~= Seq::<Option<Seq<u8>>>::empty());
        assert(slots.take(0) =~= Seq::<Option<Seq<u8>>>::empty());
        assert(concat_slots(t) == slot_bytes(slots[0]) + concat_slots(
            Seq::<Option<Seq<u8>>>::empty(),
        ));
        assert(slot_bytes(slots[0]) + Seq::<u8>::empty() =~= slot_bytes(slots[0]));
        assert(Seq::<u8>::empty() + slot_bytes(slots[0]) =~= slot_bytes(slots[0]));
    } else {
        lemma_concat_slots_snoc(slots.skip(1), i - 1);
        assert(slots.take(i + 1).skip(1) =~= slots.skip(1).take(i));
        assert(slots.take(i).skip(1) =~= slots.skip(1).take(i - 1));
        assert(slots.take(i + 1)[0] == slots[0]);
        assert(slots.take(i)[0] == slots[0]);
        assert(slot_bytes(slots[0]) + (concat_slots(slots.skip(1).take(i - 1)) + slot_bytes(
            slots[i],
        )) =~= (slot_bytes(slots[0]) + concat_slots(slots.skip(1).take(i - 1))) + slot_bytes(
            slots[i],
        ));
    }
}

/// Counting one session more adds one exactly when it is incomplete.
pub proof fn lemma_incomplete_count_snoc(ss: Seq<SessionModel>, i: int)
    requires
        0 <= i < ss.len(),
    ensures
        incomplete_count(ss.take(i + 1)) == incomplete_count(ss.take(i)) + (if ss[i].complete {
            0int
        } else {
            1int
        }),
    decreases i,
{
    if i == 0 {
        assert(ss.take(1).skip(1) =~= Seq::<SessionModel>::empty());
        assert(ss.take(0) =~= Seq::<SessionModel>::empty());
        assert(ss.take(1)[0] == ss[0]);
    } else {
        lemma_incomplete_count_snoc(ss.skip(1), i - 1);
        assert(ss.take(i + 1).skip(1) =~= ss.skip(1).take(i));
        assert(ss.take(i).skip(1) =~= ss.skip(1).take(i - 1));
        assert(ss.take(i + 1)[0] == ss[0]);
        assert(ss.take(i)[0] == ss[0]);
    }
}

/// Appending a session adds one to the incomplete count exactly when it is
/// incomplete.
pub proof fn lemma_incomplete_count_push(ss: Seq<SessionModel>, s: SessionModel)
    ensures
        incomplete_count(ss.push(s)) == incomplete_count(ss) + (if s.complete {
            0int
        } else {
            1int
        }),
    decreases ss.len(),
{
    if ss.len() == 0 {
        assert(ss.push(s)[0] == s);
        assert(ss.push(s).skip(1) =~= Seq::<SessionModel>::empty());
        assert(incomplete_count(ss.push(s)) == (if s.complete {
            0nat
        } else {
            1nat
        }) + incomplete_count(Seq::<SessionModel>::empty()));
    } else {
        lemma_incomplete_count_push(ss.skip(1), s);
        assert(ss.push(s).skip(1) =~= ss.skip(1).push(s));
        assert(ss.push(s)[0] == ss[0]);
        assert(incomplete_count(ss.push(s)) == (if ss[0].complete {
            0nat
        } else {
            1nat
        }) + incomplete_count(ss.skip(1).push(s)));
        assert(incomplete_count(ss) == (if ss[0].complete {
            0nat
        } else {
            1nat
        }) + incomplete_count(ss.skip(1)));
    }
}

/// Removing one session lowers the incomplete count exactly when it was
/// incomplete.
pub proof fn lemma_incomplete_count_remove(ss: Seq<SessionModel>, i: int)
    requires
        0 <= i < ss.len(),
    ensures
        incomplete_count(ss.remove(i)) == incomplete_count(ss) - (if ss[i].complete {
            0int
        } else {
            1int
        }),
    decreases i,
{
    if i == 0 {
        assert(ss.remove(0) =~= ss.skip(1));
    } else {
        lemma_incomplete_count_remove(ss.skip(1), i - 1);
        assert(ss.remove(i).skip(1) =~= ss.skip(1).remove(i - 1));
        assert(ss.remove(i)[0] == ss[0]);
    }
}

/// With every session complete the incomplete count is zero.
pub proof fn lemma_all_complete_count_zero(ss: Seq<SessionModel>)
    requires
        forall|t: int| 0 <= t < ss.len() ==> (#[trigger] ss[t]).complete,
    ensures
        incomplete_count(ss) == 0,
    decreases ss.len(),
{
    if ss.len() > 0 {
        assert forall|t: int| 0 <= t < ss.skip(1).len() implies (#[trigger] ss.skip(1)[t]).complete by {
            assert(ss.skip(1)[t] == ss[t + 1]);
        }
        lemma_all_complete_count_zero(ss.skip(1));
    }
}

/// When every session before `e` is complete and the `e`-th is not, the
/// oldest incomplete session is the `e`-th.
pub proof fn lemma_first_incomplete_at(ss: Seq<SessionModel>, e: int)
    requires
        0 <= e < ss.len(),
        forall|t: int| 0 <= t < e ==> (#[trigger] ss[t]).complete,
        !ss[e].complete,
    ensures
        first_incomplete(ss) == e,
    decreases e,
{
    if e > 0 {
        lemma_first_incomplete_at(ss.skip(1), e - 1);
    }
}

/// A key absent from the sessions stays absent after an eviction.
proof fn lemma_absent_after_evict(
    pre: Seq<SessionModel>,
    base: Seq<SessionModel>,
    origin: u64,
    sid: u64,
)
    requires
        find_key(pre, origin, sid) == -1,
        base == pre || (first_incomplete(pre) >= 0 && base == pre.remove(first_incomplete(pre))),
    ensures
        forall|j: int|
            0 <= j < base.len() ==> !((#[trigger] base[j]).origin == origin && base[j].session_id
                == sid),
{
    lemma_find_key_none_forall(pre, origin, sid);
    if base != pre {
        lemma_first_incomplete_range(pre);
        let fi = first_incomplete(pre);
        assert forall|j: int|
            0 <= j < base.len() implies !((#[trigger] base[j]).origin == origin
            && base[j].session_id == sid) by {
            let j2: int = if j < fi {
                j
            } else {
                j + 1
            };
            assert(base[j] == pre[j2]);
        }
    }
}

/// The assembler invariant survives replacing a session with its filled
/// successor.
proof fn lemma_wf_after_update(pre: Seq<SessionModel>, cap: nat, i: int, s2: SessionModel)
    requires
        model_wf(pre, cap),
        0 <= i < pre.len(),
        s2.origin == pre[i].origin,
        s2.session_id == pre[i].session_id,
        s2.total == pre[i].total,
        session_wf(s2),
        !pre[i].complete,
    ensures
        model_wf(pre.update(i, s2), cap),
{
    let post = pre.update(i, s2);
    assert forall|a: int, b: int|
        #![trigger post[a].origin, post[b].origin]
        0 <= a < b < post.len() implies !(post[a].origin == post[b].origin && post[a].session_id
        == post[b].session_id) by {
        assert(!(pre[a].origin == pre[b].origin && pre[a].session_id == pre[b].session_id));
    }
    assert forall|a: int| 0 <= a < post.len() implies session_wf(#[trigger] post[a]) by {
        if a != i {
            assert(session_wf(pre[a]));
        }
    }
    lemma_incomplete_count_update_le(pre, i, s2);
}

/// Replacing an incomplete session never raises the incomplete count.
proof fn lemma_incomplete_count_update_le(pre: Seq<SessionModel>, i: int, s2: SessionModel)
    requires
        0 <= i < pre.len(),
        !pre[i].complete,
    ensures
        incomplete_count(pre.update(i, s2)) <= incomplete_count(pre),
    decreases i,
{
    if i == 0 {
        assert(pre.update(0, s2).skip(1) =~= pre.skip(1));
    } else {
        lemma_incomplete_count_update_le(pre.skip(1), i - 1, s2);
        assert(pre.update(i, s2).skip(1) =~= pre.skip(1).update(i - 1, s2));
        assert(pre.update(i, s2)[0] == pre[0]);
    }
}

/// The assembler invariant survives opening (and filling once) a session for
/// a key it did not track, with the eviction policy applied first.
proof fn lemma_wf_after_push(
    pre: Seq<SessionModel>,
    base: Seq<SessionModel>,
    cap: nat,
    s2: SessionModel,
    origin: u64,
    sid: u64,
)
    requires
        model_wf(pre, cap),
        find_key(pre, origin, sid) == -1,
        base == (if incomplete_count(pre) >= cap {
            evict_one(pre)
        } else {
            pre
        }),
        incomplete_count(pre) >= cap ==> incomplete_count(base) == incomplete_count(pre) - 1,
        s2.origin == origin,
        s2.session_id == sid,
        session_wf(s2),
    ensures
        model_wf(base.push(s2), cap),
{
    if incomplete_count(pre) >= cap {
        lemma_first_incomplete_range(pre);
    }
    lemma_absent_after_evict(pre, base, origin, sid);
    let post = base.push(s2);
    assert forall|a: int, b: int|
        #![trigger post[a].origin, post[b].origin]
        0 <= a < b < post.len() implies !(post[a].origin == post[b].origin && post[a].session_id
        == post[b].session_id) by {
        if b < post.len() - 1 {
            if base == pre {
                assert(!(pre[a].origin == pre[b].origin && pre[a].session_id == pre[b].session_id));
            } else {
                let fi = first_incomplete(pre);
                let a2: int = if a < fi {
                    a
                } else {
                    a + 1
                };
                let b2: int = if b < fi {
                    b
                } else {
                    b + 1
                };
                assert(base[a] == pre[a2]);
                assert(base[b] == pre[b2]);
                assert(!(pre[a2].origin == pre[b2].origin && pre[a2].session_id
                    == pre[b2].session_id));
            }
        } else {
            assert(post[b] == s2);
            assert(!(base[a].origin == origin && base[a].session_id == sid));
        }
    }
    assert forall|a: int| 0 <= a < post.len() implies session_wf(#[trigger] post[a]) by {
        if a < post.len() - 1 {
            if base == pre {
                assert(session_wf(pre[a]));
            } else {
                let fi = first_incomplete(pre);
                let a2: int = if a < fi {
                    a
                } else {
                    a + 1
                };
                assert(base[a] == pre[a2]);
                assert(session_wf(pre[a2]));
            }
        }
    }
    lemma_incomplete_count_push(base, s2);
}

/// A successful key search lands on the first session carrying the key.
pub proof fn lemma_find_key_found(ss: Seq<SessionModel>, origin: u64, sid: u64)
    requires
        find_key(ss, origin, sid) >= 0,
    ensures
        find_key(ss, origin, sid) < ss.len(),
        ss[find_key(ss, origin, sid)].origin == origin,
        ss[find_key(ss, origin, sid)].session_id == sid,
        forall|j: int|
            0 <= j < find_key(ss, origin, sid) ==> !((#[trigger] ss[j]).origin == origin
                && ss[j].session_id == sid),
    decreases ss.len(),
{
    if ss.len() > 0 && !(ss[0].origin == origin && ss[0].session_id == sid) {
        lemma_find_key_range(ss.skip(1), origin, sid);
        lemma_find_key_found(ss.skip(1), origin, sid);
        assert forall|j: int|
            0 <= j < find_key(ss, origin, sid) implies !((#[trigger] ss[j]).origin == origin
            && ss[j].session_id == sid) by {
            if j > 0 {
                assert(ss[j] == ss.skip(1)[j - 1]);
            }
        }
    }
}

/// Feeding the same fragment again before its session completed changes
/// nothing: the duplicate fills an already-filled slot, completes nothing
/// early, and corrupts no stored payload.
pub proof fn lemma_duplicate_feed_idempotent(ss: Seq<SessionModel>, cap: nat, f: FragModel)
    requires
        model_wf(ss, cap),
        feed_spec(ss, cap, f).err is None,
        feed_spec(ss, cap, f).output is None,
    ensures
        feed_spec(feed_spec(ss, cap, f).sessions, cap, f).sessions == feed_spec(
            ss,
            cap,
            f,
        ).sessions,
        feed_spec(feed_spec(ss, cap, f).sessions, cap, f).output is None,
        feed_spec(feed_spec(ss, cap, f).sessions, cap, f).err is None,
{
    let o1 = feed_spec(ss, cap, f);
    let i = find_key(ss, f.origin, f.session_id);
    if i >= 0 {
        lemma_find_key_found(ss, f.origin, f.session_id);
        if ss[i].complete {
            assert(o1.sessions == ss);
        } else {
            let s = ss[i];
            let so = fill_session(s, f.index as int, f.payload);
            let s2 = so.0;
            assert(o1.sessions == ss.update(i, s2));
            assert(!s2.complete);
            lemma_find_key_first(o1.sessions, f.origin, f.session_id, i);
            let slots3 = s2.slots.update(f.index as int, Some(f.payload));
            assert(slots3 =~= s2.slots);
            let so2 = fill_session(s2, f.index as int, f.payload);
            assert(so2.0 =~= s2);
            assert(o1.sessions.update(i, so2.0) =~= o1.sessions);
        }
    } else {
        lemma_find_key_range(ss, f.origin, f.session_id);
        let base = if incomplete_count(ss) >= cap {
            evict_one(ss)
        } else {
            ss
        };
        if incomplete_count(ss) >= cap {
            lemma_first_incomplete_range(ss);
        }
        lemma_absent_after_evict(ss, base, f.origin, f.session_id);
        let so = fill_session(fresh_session(f.origin, f.session_id, f.total), f.index as int, f.payload);
        let s2 = so.0;
        assert(o1.sessions == base.push(s2));
        assert(!s2.complete);
        lemma_find_key_first(o1.sessions, f.origin, f.session_id, base.len() as int);
        let slots3 = s2.slots.update(f.index as int, Some(f.payload));
        assert(slots3 =~= s2.slots);
        let so2 = fill_session(s2, f.index as int, f.payload);
        assert(so2.0 =~= s2);
        assert(o1.sessions.update(base.len() as int, so2.0) =~= o1.sessions);
    }
}

/// The sessions once each fragment of the sequence has been fed in turn.
pub open spec fn feed_many(ss: Seq<SessionModel>, cap: nat, fs: Seq<FragModel>) -> Seq<
    SessionModel,
>
    decreases fs.len(),
{
    if fs.len() == 0 {
        ss
    } else {
        feed_many(feed_spec(ss, cap, fs[0]).sessions, cap, fs.skip(1))
    }
}

/// What each feed of the sequence hands back, in feeding order.
pub open spec fn feed_many_outputs(ss: Seq<SessionModel>, cap: nat, fs: Seq<FragModel>) -> Seq<
    Option<Seq<u8>>,
>
    decreases fs.len(),
{
    if fs.len() == 0 {
        Seq::empty()
    } else {
        seq![feed_spec(ss, cap, fs[0]).output] + feed_many_outputs(
            feed_spec(ss, cap, fs[0]).sessions,
            cap,
            fs.skip(1),
        )
    }
}

/// Whether slot `i` is among the first `j` fed slots of the arrival order.
pub open spec fn fed_before(order: Seq<int>, j: int, i: int) -> bool {
    exists|t: int| 0 <= t < j && order[t] == i
}

/// The one session of the message's key after the first `j` arrivals: each
/// fed slot holds its piece, and the session is complete exactly when every
/// slot was fed.
pub open spec fn session_after(
    origin: u64,
    sid: u64,
    p: Seq<u8>,
    m: nat,
    order: Seq<int>,
    j: int,
) -> SessionModel {
    let cs = chunks(p, m);
    SessionModel {
        origin,
        session_id: sid,
        total: cs.len() as u32,
        slots: Seq::new(
            cs.len() as nat,
            |i: int|
                if fed_before(order, j, i) {
                    Some(cs[i])
                } else {
                    None
                },
        ),
        complete: j == cs.len(),
    }
}

/// The fragments of one payload, arriving in the given slot order.
pub open spec fn frags_of(origin: u64, sid: u64, p: Seq<u8>, m: nat, order: Seq<int>) -> Seq<
    FragModel,
> {
    let cs = chunks(p, m);
    Seq::new(
        order.len(),
        |t: int|
            FragModel {
                origin,
                session_id: sid,
                index: order[t] as u32,
                total: cs.len() as u32,
                payload: cs[order[t]],
            },
    )
}

/// An arrival order that is a permutation of the `k` slot indexes: one
/// arrival per slot, every slot arriving.
pub open spec fn valid_order(order: Seq<int>, k: int) -> bool {
    &&& order.len() == k
    &&& forall|t: int| 0 <= t < k ==> 0 <= #[trigger] order[t] < k
    &&& forall|a: int, b: int| 0 <= a < b < k ==> order[a] != order[b]
    &&& forall|i: int| 0 <= i < k ==> fed_before(order, k, i)
}

/// Slots that each hold their piece concatenate to the pieces' glue.
pub proof fn lemma_concat_slots_pieces(slots: Seq<Option<Seq<u8>>>, pieces: Seq<Seq<u8>>)
    requires
        slots.len() == pieces.len(),
        forall|i: int| 0 <= i < slots.len() ==> slots[i] == Some(#[trigger] pieces[i]),
    ensures
        concat_slots(slots) == concat_pieces(pieces),
    decreases slots.len(),
{
    if slots.len() > 0 {
        assert forall|i: int|
            0 <= i < slots.skip(1).len() implies slots.skip(1)[i] == Some(
            #[trigger] pieces.skip(1)[i],
        ) by {
            assert(slots.skip(1)[i] == slots[i + 1]);
            assert(pieces.skip(1)[i] == pieces[i + 1]);
        }
        lemma_concat_slots_pieces(slots.skip(1), pieces.skip(1));
        assert(slots[0] == Some(pieces[0]));
    }
}

/// From the state after `j` arrivals of one fragmented message, feeding the
/// remaining fragments reports nothing until the last arrival, which hands
/// back the glued payload and completes the session.
proof fn lemma_feed_suffix(
    origin: u64,
    sid: u64,
    p: Seq<u8>,
    m: nat,
    cap: nat,
    order: Seq<int>,
    j: int,
)
    requires
        m >= 1,
        cap >= 1,
        chunks(p, m).len() <= 0xffff_fffe,
        valid_order(order, chunks(p, m).len() as int),
        1 <= j < chunks(p, m).len(),
        count_filled(session_after(origin, sid, p, m, order, j).slots) == j,
    ensures
        feed_many(
            seq![session_after(origin, sid, p, m, order, j)],
            cap,
            frags_of(origin, sid, p, m, order).skip(j),
        ) == seq![
            session_after(origin, sid, p, m, order, chunks(p, m).len() as int),
        ],
        feed_many_outputs(
            seq![session_after(origin, sid, p, m, order, j)],
            cap,
            frags_of(origin, sid, p, m, order).skip(j),
        ).len() == chunks(p, m).len() - j,
        forall|t: int|
            0 <= t < chunks(p, m).len() - j - 1 ==> #[trigger] feed_many_outputs(
                seq![session_after(origin, sid, p, m, order, j)],
                cap,
                frags_of(origin, sid, p, m, order).skip(j),
            )[t] is None,
        feed_many_outputs(
            seq![session_after(origin, sid, p, m, order, j)],
            cap,
            frags_of(origin, sid, p, m, order).skip(j),
        )[chunks(p, m).len() - j - 1] == Some(concat_pieces(chunks(p, m))),
    decreases chunks(p, m).len() - j,
{
    let cs = chunks(p, m);
    let k = cs.len() as int;
    let sj = session_after(origin, sid, p, m, order, j);
    let st = seq![sj];
    let frags = frags_of(origin, sid, p, m, order);
    let fs = frags.skip(j);
    let f = fs[0];
    assert(f == frags[j]);
    assert(0 <= order[j] < k);
    assert(f.index == order[j] as u32);
    assert(f.total == k as u32);
    assert(f.payload == cs[order[j]]);
    assert(f.index < f.total);
    assert(f.total != 0);
    assert(f.index as int == order[j]);

    let sj1 = session_after(origin, sid, p, m, order, j + 1);
    assert(!fed_before(order, j, order[j])) by {
        if fed_before(order, j, order[j]) {
            let t = choose|t: int| 0 <= t < j && order[t] == order[j];
            assert(order[t] != order[j]);
        }
    }
    assert(sj.slots[order[j]] is None);
    let slots2 = sj.slots.update(f.index as int, Some(f.payload));
    lemma_count_filled_update(sj.slots, f.index as int, Some(f.payload));
    assert(count_filled(slots2) == j + 1);
    lemma_slots_step(origin, sid, p, m, order, j);
    assert(slots2 == sj1.slots);

    let o1 = feed_spec(st, cap, f);
    assert(st[0] == sj);
    assert(find_key(st, origin, sid) == 0);
    assert(!sj.complete);
    assert(f.total == sj.total);
    let so = fill_session(sj, f.index as int, f.payload);
    assert(so.0.complete == (j + 1 == k));
    assert(so.0 == sj1);
    assert(o1.sessions =~= seq![sj1]);
    assert(o1.output == (if j + 1 == k {
        Some(concat_slots(slots2))
    } else {
        None::<Seq<u8>>
    }));

    if j + 1 == k {
        lemma_last_feed_completes(origin, sid, p, m, order);
        assert(concat_slots(slots2) == concat_pieces(cs));
        assert(fs.len() == 1);
        assert(fs.skip(1).len() == 0);
        assert(fs[0] == f);
        assert(feed_many(st, cap, fs) == feed_many(o1.sessions, cap, fs.skip(1)));
        assert(feed_many(o1.sessions, cap, fs.skip(1)) == o1.sessions);
        assert(feed_many_outputs(st, cap, fs) == seq![o1.output] + feed_many_outputs(
            o1.sessions,
            cap,
            fs.skip(1),
        ));
        assert(feed_many_outputs(o1.sessions, cap, fs.skip(1)) =~= Seq::<Option<Seq<u8>>>::empty());
        assert(feed_many_outputs(st, cap, fs) =~= seq![o1.output]);
        assert(sj1 == session_after(origin, sid, p, m, order, k));
    } else {
        lemma_feed_suffix(origin, sid, p, m, cap, order, j + 1);
        let st2 = seq![session_after(origin, sid, p, m, order, j + 1)];
        let fs2 = frags_of(origin, sid, p, m, order).skip(j + 1);
        assert(fs.skip(1) =~= fs2);
        assert(o1.sessions == st2);
        assert(fs[0] == f);
        assert(feed_many(st, cap, fs) == feed_many(st2, cap, fs2));
        let outs2 = feed_many_outputs(st2, cap, fs2);
        let outs = feed_many_outputs(st, cap, fs);
        assert(outs == seq![o1.output] + outs2);
        assert(o1.output is None);
        assert forall|t: int| 0 <= t < k - j - 1 implies #[trigger] outs[t] is None by {
            if t > 0 {
                assert(outs[t] == outs2[t - 1]);
                assert(outs2[t - 1] is None);
            } else {
                assert(outs[0] == o1.output);
            }
        }
        assert(outs[k - j - 1] == outs2[k - j - 2]);
    }
}

/// Filling slot `order[j]` of the session after `j` arrivals yields the
/// session after `j + 1` arrivals.
proof fn lemma_slots_step(origin: u64, sid: u64, p: Seq<u8>, m: nat, order: Seq<int>, j: int)
    requires
        m >= 1,
        valid_order(order, chunks(p, m).len() as int),
        0 <= j < chunks(p, m).len(),
    ensures
        session_after(origin, sid, p, m, order, j).slots.update(
            order[j],
            Some(chunks(p, m)[order[j]]),
        ) == session_after(origin, sid, p, m, order, j + 1).slots,
{
    let cs = chunks(p, m);
    let k = cs.len() as int;
    let a = session_after(origin, sid, p, m, order, j).slots.update(
        order[j],
        Some(cs[order[j]]),
    );
    let b = session_after(origin, sid, p, m, order, j + 1).slots;
    assert forall|i: int| 0 <= i < k implies a[i] == b[i] by {
        if i == order[j] {
            assert(fed_before(order, j + 1, i)) by {
                assert(0 <= j < j + 1 && order[j] == i);
            }
        } else {
            if fed_before(order, j, i) {
                let t = choose|t: int| 0 <= t < j && order[t] == i;
                assert(fed_before(order, j + 1, i)) by {
                    assert(0 <= t < j + 1 && order[t] == i);
                }
            } else {
                assert(!fed_before(order, j + 1, i)) by {
                    if fed_before(order, j + 1, i) {
                        let t = choose|t: int| 0 <= t < j + 1 && order[t] == i;
                        assert(t == j || (0 <= t < j && order[t] == i));
                    }
                }
            }
        }
    }
    assert(a =~= b);
}

/// After every arrival, each slot holds its piece, so the concatenation is
/// the pieces' glue.
proof fn lemma_last_feed_completes(origin: u64, sid: u64, p: Seq<u8>, m: nat, order: Seq<int>)
    requires
        m >= 1,
        valid_order(order, chunks(p, m).len() as int),
    ensures
        concat_slots(session_after(origin, sid, p, m, order, chunks(p, m).len() as int).slots)
            == concat_pieces(chunks(p, m)),
{
    let cs = chunks(p, m);
    let k = cs.len() as int;
    let slots = session_after(origin, sid, p, m, order, k).slots;
    assert forall|i: int| 0 <= i < k implies slots[i] == Some(#[trigger] cs[i]) by {
        assert(fed_before(order, k, i));
    }
    lemma_concat_slots_pieces(slots, cs);
}

/// Any byte payload split into fragments and fed to a fresh assembler in
/// any arrival order is handed back unchanged by the feed that completes
/// the set — after exactly as many feeds as there are fragments, with every
/// earlier feed reporting nothing — and every later fragment of that
/// session key is discarded silently, the sessions unchanged.
pub proof fn lemma_permuted_reassembly(
    origin: u64,
    sid: u64,
    p: Seq<u8>,
    m: nat,
    cap: nat,
    order: Seq<int>,
)
    requires
        m >= 1,
        cap >= 1,
        chunks(p, m).len() <= 0xffff_fffe,
        valid_order(order, chunks(p, m).len() as int),
    ensures
        ({
            let k = chunks(p, m).len() as int;
            let fs = frags_of(origin, sid, p, m, order);
            let outs = feed_many_outputs(Seq::<SessionModel>::empty(), cap, fs);
            let fin = feed_many(Seq::<SessionModel>::empty(), cap, fs);
            &&& outs.len() == k
            &&& (forall|t: int| 0 <= t < k - 1 ==> #[trigger] outs[t] is None)
            &&& outs[k - 1] == Some(p)
            &&& (forall|g: FragModel|
                g.origin == origin && g.session_id == sid ==> #[trigger] feed_spec(
                    fin,
                    cap,
                    g,
                ).output is None && feed_spec(fin, cap, g).sessions == fin)
        }),
{
    let cs = chunks(p, m);
    lemma_chunks_len(p, m);
    lemma_chunks_concat(p, m);
    let k = cs.len() as int;
    let frags = frags_of(origin, sid, p, m, order);
    let f = frags[0];
    assert(0 <= order[0] < k);
    assert(f.index == order[0] as u32);
    assert(f.total == k as u32);
    assert(f.payload == cs[order[0]]);
    assert(f.index < f.total);
    assert(f.total != 0);
    assert(f.index as int == order[0]);

    let empty_state = Seq::<SessionModel>::empty();
    let o1 = feed_spec(empty_state, cap, f);
    assert(find_key(empty_state, origin, sid) == -1);
    assert(incomplete_count(empty_state) == 0);
    let fresh = fresh_session(origin, sid, f.total);
    let s0 = session_after(origin, sid, p, m, order, 0);
    assert forall|i: int| 0 <= i < s0.slots.len() implies s0.slots[i] is None by {
        assert(!fed_before(order, 0, i));
    }
    assert(fresh.slots =~= s0.slots);
    lemma_count_filled_all_none(s0.slots);
    assert(!fed_before(order, 0, order[0]));
    let s1 = session_after(origin, sid, p, m, order, 1);
    let slots2 = s0.slots.update(order[0], Some(cs[order[0]]));
    lemma_count_filled_update(s0.slots, order[0], Some(cs[order[0]]));
    assert(count_filled(slots2) == 1);
    lemma_slots_step(origin, sid, p, m, order, 0);
    assert(slots2 == s1.slots);
    let so = fill_session(fresh, f.index as int, f.payload);
    assert(so.0.complete == (1 == k));
    assert(so.0 == s1);
    assert(o1.sessions =~= seq![s1]);
    assert(o1.output == (if 1 == k {
        Some(concat_slots(slots2))
    } else {
        None::<Seq<u8>>
    }));

    let fin = feed_many(empty_state, cap, frags);
    let outs = feed_many_outputs(empty_state, cap, frags);
    let sk = session_after(origin, sid, p, m, order, k);

    if k == 1 {
        lemma_last_feed_completes(origin, sid, p, m, order);
        assert(frags.len() == 1);
        assert(frags.skip(1).len() == 0);
        assert(frags[0] == f);
        assert(fin == feed_many(o1.sessions, cap, frags.skip(1)));
        assert(feed_many(o1.sessions, cap, frags.skip(1)) == o1.sessions);
        assert(fin == seq![sk]);
        assert(outs == seq![o1.output] + feed_many_outputs(o1.sessions, cap, frags.skip(1)));
        assert(feed_many_outputs(o1.sessions, cap, frags.skip(1))
            =~= Seq::<Option<Seq<u8>>>::empty());
        assert(outs =~= seq![o1.output]);
        assert(outs[0] == Some(p));
    } else {
        lemma_feed_suffix(origin, sid, p, m, cap, order, 1);
        let st2 = seq![session_after(origin, sid, p, m, order, 1)];
        let fs2 = frags_of(origin, sid, p, m, order).skip(1);
        assert(frags.skip(1) =~= fs2);
        assert(o1.sessions == st2);
        assert(frags[0] == f);
        assert(fin == feed_many(st2, cap, fs2));
        assert(fin == seq![sk]);
        let outs2 = feed_many_outputs(st2, cap, fs2);
        assert(outs == seq![o1.output] + outs2);
        assert(o1.output is None);
        assert forall|t: int| 0 <= t < k - 1 implies #[trigger] outs[t] is None by {
            if t > 0 {
                assert(outs[t] == outs2[t - 1]);
                assert(outs2[t - 1] is None);
            } else {
                assert(outs[0] == o1.output);
            }
        }
        assert(outs[k - 1] == outs2[k - 2]);
        assert(outs2[k - 2] == Some(concat_pieces(cs)));
        assert(outs[k - 1] == Some(p));
    }

    assert(sk.complete);
    assert forall|g: FragModel|
        g.origin == origin && g.session_id == sid implies #[trigger] feed_spec(
        fin,
        cap,
        g,
    ).output is None && feed_spec(fin, cap, g).sessions == fin by {
        if !(g.total == 0 || g.index >= g.total) {
            assert(find_key(fin, origin, sid) == 0);
            assert(fin[0].complete);
        }
    }
}

} // verus!
