//! The keyed content store: immutable records under unique 128-bit
//! identifiers, with insert/remove as the only lifecycle operations, and the
//! `id:title` summaries the listing queries return.

use vstd::prelude::*;

verus! {

/// One content record. The identifier is the 128-bit value of the record's
/// UUID; title and body are byte strings.
#[derive(Debug, PartialEq, Eq)]
pub struct ContentRecord {
    pub id: u128,
    pub title: Vec<u8>,
    pub data: Vec<u8>,
}

/// Spec-level image of a record.
pub struct RecModel {
    pub id: u128,
    pub title: Seq<u8>,
    pub data: Seq<u8>,
}

impl View for ContentRecord {
    type V = RecModel;

    open spec fn view(&self) -> RecModel {
        RecModel { id: self.id, title: self.title@, data: self.data@ }
    }
}

/// The first record of `s` whose identifier is `id`, if any.
pub open spec fn spec_find(s: Seq<RecModel>, id: u128) -> Option<RecModel>
    decreases s.len(),
{
    if s.len() == 0 {
        None
    } else if s[0].id == id {
        Some(s[0])
    } else {
        spec_find(s.skip(1), id)
    }
}

/// `s` with every record of identifier `id` taken out.
pub open spec fn spec_remove_id(s: Seq<RecModel>, id: u128) -> Seq<RecModel>
    decreases s.len(),
{
    if s.len() == 0 {
        s
    } else if s[0].id == id {
        spec_remove_id(s.skip(1), id)
    } else {
        seq![s[0]] + spec_remove_id(s.skip(1), id)
    }
}

/// When no record among the first `i` matches and the `i`-th does, the find
/// lands on the `i`-th record.
pub proof fn lemma_find_first(s: Seq<RecModel>, id: u128, i: int)
    requires
        0 <= i < s.len(),
        forall|j: int| 0 <= j < i ==> s[j].id != id,
        s[i].id == id,
    ensures
        spec_find(s, id) == Some(s[i]),
    decreases i,
{
    if i > 0 {
        lemma_find_first(s.skip(1), id, i - 1);
    }
}

/// When no record matches, the find comes back empty.
pub proof fn lemma_find_none(s: Seq<RecModel>, id: u128)
    requires
        forall|j: int| 0 <= j < s.len() ==> s[j].id != id,
    ensures
        spec_find(s, id) is None,
    decreases s.len(),
{
    if s.len() > 0 {
        lemma_find_none(s.skip(1), id);
    }
}

/// With identifiers unique, removing `id` from a sequence whose `i`-th record
/// carries it is the same as cutting out position `i`.
pub proof fn lemma_remove_id_at(s: Seq<RecModel>, id: u128, i: int)
    requires
        0 <= i < s.len(),
        forall|j: int| 0 <= j < i ==> s[j].id != id,
        s[i].id == id,
        forall|j: int| i < j < s.len() ==> s[j].id != id,
    ensures
        spec_remove_id(s, id) == s.remove(i),
    decreases i,
{
    if i == 0 {
        lemma_remove_id_absent(s.skip(1), id);
        assert(s.remove(0) =~= s.skip(1));
    } else {
        lemma_remove_id_at(s.skip(1), id, i - 1);
        assert(seq![s[0]] + s.skip(1).remove(i - 1) =~= s.remove(i));
    }
}

/// An empty find means no record carries the identifier.
pub proof fn lemma_find_none_forall(s: Seq<RecModel>, id: u128)
    requires
        spec_find(s, id) is None,
    ensures
        forall|j: int| 0 <= j < s.len() ==> #[trigger] s[j].id != id,
    decreases s.len(),
{
    if s.len() > 0 {
        lemma_find_none_forall(s.skip(1), id);
        assert forall|j: int| 0 <= j < s.len() implies #[trigger] s[j].id != id by {
            if j > 0 {
                assert(s[j] == s.skip(1)[j - 1]);
            }
        }
    }
}

/// Removing an identifier that no record carries changes nothing.
pub proof fn lemma_remove_id_absent(s: Seq<RecModel>, id: u128)
    requires
        forall|j: int| 0 <= j < s.len() ==> s[j].id != id,
    ensures
        spec_remove_id(s, id) == s,
    decreases s.len(),
{
    if s.len() > 0 {
        lemma_remove_id_absent(s.skip(1), id);
        assert(seq![s[0]] + s.skip(1) =~= s);
    }
}

/// One hexadecimal digit, lower case.
pub open spec fn spec_hex_digit(n: u8) -> u8 {
    if n < 10 {
        (48 + n) as u8
    } else {
        (87 + n) as u8
    }
}

/// The `k`-th nibble of an identifier, counting from the most significant.
pub open spec fn spec_nibble(id: u128, k: int) -> u8 {
    ((id >> (((31 - k) * 4) as u128)) & 0xf) as u8
}

/// How many hyphens the canonical UUID text holds before position `i`.
pub open spec fn spec_hyphens_before(i: int) -> int {
    if i < 9 {
        0
    } else if i < 14 {
        1
    } else if i < 19 {
        2
    } else if i < 24 {
        3
    } else {
        4
    }
}

/// Byte `i` of the canonical, lower-case, hyphenated UUID text.
pub open spec fn spec_uuid_char(id: u128, i: int) -> u8 {
    if i == 8 || i == 13 || i == 18 || i == 23 {
        45u8
    } else {
        spec_hex_digit(spec_nibble(id, i - spec_hyphens_before(i)))
    }
}

/// The canonical 36-byte text of an identifier: 32 hex digits in four
/// hyphen-separated groups of 8, 4, 4, 4 and 12.
pub open spec fn spec_uuid_text(id: u128) -> Seq<u8> {
    Seq::new(36, |i: int| spec_uuid_char(id, i))
}

/// The listing line of one record: its UUID text, a colon, its title.
pub open spec fn spec_summary(r: RecModel) -> Seq<u8> {
    spec_uuid_text(r.id) + seq![58u8] + r.title
}

/// The listing lines of a whole store, one per record, in store order.
pub open spec fn spec_summaries(s: Seq<RecModel>) -> Seq<Seq<u8>> {
    s.map_values(|r: RecModel| spec_summary(r))
}

/// Byte encoding of one record, as an item query's reply carries it: the
/// identifier, the title behind a 4-byte length, then the body bytes.
pub open spec fn spec_encode_record(r: RecModel) -> Seq<u8> {
    crate::protocol::spec_u128_be(r.id) + crate::protocol::spec_u32_be(r.title.len() as u32)
        + r.title + r.data
}

/// Turns a record into the bytes that carry it.
pub fn encode_record(rec: &ContentRecord) -> (out: Vec<u8>)
    requires
        rec@.title.len() <= 0xffff_ffff,
    ensures
        out@ == spec_encode_record(rec@),
{
    let mut out: Vec<u8> = Vec::new();
    crate::protocol::push_u128_be(&mut out, rec.id);
    crate::protocol::push_u32_be(&mut out, rec.title.len() as u32);
    crate::protocol::append_bytes(&mut out, &rec.title);
    crate::protocol::append_bytes(&mut out, &rec.data);
    proof {
        assert(out@ =~= spec_encode_record(rec@));
    }
    out
}

/// A found record is one of the sequence's records.
pub proof fn lemma_find_member(s: Seq<RecModel>, id: u128)
    requires
        spec_find(s, id) is Some,
    ensures
        exists|i: int| 0 <= i < s.len() && Some(#[trigger] s[i]) == spec_find(s, id),
    decreases s.len(),
{
    if s.len() > 0 {
        if s[0].id == id {
            assert(Some(s[0]) == spec_find(s, id));
        } else {
            lemma_find_member(s.skip(1), id);
            let i = choose|i: int|
                0 <= i < s.skip(1).len() && Some(#[trigger] s.skip(1)[i]) == spec_find(
                    s.skip(1),
                    id,
                );
            assert(Some(s[i + 1]) == spec_find(s, id));
        }
    }
}

/// Renders an identifier as its canonical UUID text.
pub fn uuid_text(id: u128) -> (out: Vec<u8>)
    ensures
        out@ == spec_uuid_text(id),
{
    let mut out: Vec<u8> = Vec::new();
    let mut i: usize = 0;
    while i < 36
        invariant
            i <= 36,
            out@ == spec_uuid_text(id).take(i as int),
        decreases 36 - i,
    {
        if i == 8 || i == 13 || i == 18 || i == 23 {
            out.push(45);
        } else {
            let h: usize = if i < 9 {
                0
            } else if i < 14 {
                1
            } else if i < 19 {
                2
            } else if i < 24 {
                3
            } else {
                4
            };
            let k = i - h;
            let sh: u128 = ((31 - k) * 4) as u128;
            proof {
                assert(((id >> sh) & 0xf) < 16) by (bit_vector);
            }
            let nib = ((id >> sh) & 0xf) as u8;
            let digit = if nib < 10 {
                48 + nib
            } else {
                87 + nib
            };
            out.push(digit);
        }
        proof {
            assert(out@.last() == spec_uuid_char(id, i as int));
            assert(spec_uuid_text(id).take(i as int) + seq![spec_uuid_char(id, i as int)]
                =~= spec_uuid_text(id).take(i as int + 1));
        }
        i += 1;
    }
    proof {
        assert(spec_uuid_text(id).take(36) =~= spec_uuid_text(id));
    }
    out
}

/// A keyed store of content records: identifiers unique, order of insertion
/// kept, queried read-only by the data plane.
pub struct ContentStore {
    records: Vec<ContentRecord>,
}

impl View for ContentStore {
    type V = Seq<RecModel>;

    closed spec fn view(&self) -> Seq<RecModel> {
        self.records@.map_values(|r: ContentRecord| r@)
    }
}

impl ContentStore {
    /// Identifiers unique; counts and title lengths small enough for the
    /// 4-byte length fields of the listing encoding.
    pub open spec fn wf(&self) -> bool {
        &&& forall|i: int, j: int|
            #![trigger self@[i].id, self@[j].id]
            0 <= i < j < self@.len() ==> self@[i].id != self@[j].id
        &&& self@.len() <= 0xffff_fffe
        &&& forall|i: int| 0 <= i < self@.len() ==> #[trigger] self@[i].title.len() <= 0xffff_0000
    }

    /// An empty store.
    pub fn new() -> (s: ContentStore)
        ensures
            s.wf(),
            s@ == Seq::<RecModel>::empty(),
    {
        let s = ContentStore { records: Vec::new() };
        proof {
            assert(s@ =~= Seq::<RecModel>::empty());
        }
        s
    }

    /// The record under `id`, if the store holds one.
    pub fn get(&self, id: u128) -> (r: Option<&ContentRecord>)
        ensures
            match r {
                Some(rec) => spec_find(self@, id) == Some(rec@),
                None => spec_find(self@, id) is None,
            },
    {
        let mut i: usize = 0;
        while i < self.records.len()
            invariant
                i <= self.records.len(),
                self@.len() == self.records@.len(),
                forall|j: int| 0 <= j < self@.len() ==> self@[j] == self.records@[j]@,
                forall|j: int| 0 <= j < i ==> #[trigger] self@[j].id != id,
            decreases self.records.len() - i,
        {
            if self.records[i].id == id {
                proof {
                    lemma_find_first(self@, id, i as int);
                }
                return Some(&self.records[i]);
            }
            i += 1;
        }
        proof {
            lemma_find_none(self@, id);
        }
        None
    }

    /// Adds a record. A record whose identifier the store already holds is
    /// refused, and the store stands unchanged: records are never mutated
    /// after insertion.
    pub fn insert(&mut self, rec: ContentRecord) -> (added: bool)
        requires
            old(self).wf(),
            old(self)@.len() < 0xffff_fffe,
            rec@.title.len() <= 0xffff_0000,
        ensures
            final(self).wf(),
            added == (spec_find(old(self)@, rec@.id) is None),
            added ==> final(self)@ == old(self)@.push(rec@),
            !added ==> final(self)@ == old(self)@,
    {
        let present = match self.get(rec.id) {
            Some(_) => true,
            None => false,
        };
        if present {
            false
        } else {
            proof {
                lemma_find_none_forall(self@, rec@.id);
            }
            self.records.push(rec);
            proof {
                assert(self@ =~= old(self)@.push(rec@));
                assert forall|i: int, j: int|
                    #![trigger self@[i].id, self@[j].id]
                    0 <= i < j < self@.len() implies self@[i].id != self@[j].id by {
                    if j < self@.len() - 1 {
                        assert(old(self)@[i].id != old(self)@[j].id);
                    } else {
                        assert(old(self)@[i].id != rec@.id);
                    }
                }
            }
            true
        }
    }

    /// Takes the record under `id` out and hands it back; a remove of an
    /// identifier the store does not hold is a no-op.
    pub fn remove(&mut self, id: u128) -> (r: Option<ContentRecord>)
        requires
            old(self).wf(),
        ensures
            final(self).wf(),
            final(self)@ == spec_remove_id(old(self)@, id),
            match r {
                Some(rec) => spec_find(old(self)@, id) == Some(rec@),
                None => spec_find(old(self)@, id) is None && final(self)@ == old(self)@,
            },
    {
        let mut i: usize = 0;
        while i < self.records.len()
            invariant
                i <= self.records.len(),
                self == old(self),
                old(self).wf(),
                self@.len() == self.records@.len(),
                forall|j: int| 0 <= j < self@.len() ==> self@[j] == self.records@[j]@,
                forall|j: int| 0 <= j < i ==> #[trigger] self@[j].id != id,
            decreases self.records.len() - i,
        {
            if self.records[i].id == id {
                proof {
                    lemma_find_first(self@, id, i as int);
                    assert forall|j: int| i < j < self@.len() implies #[trigger] self@[j].id
                        != id by {
                        assert(self@[i as int].id != self@[j].id);
                    }
                    lemma_remove_id_at(self@, id, i as int);
                }
                let rec = self.records.remove(i);
                proof {
                    assert(self@ =~= old(self)@.remove(i as int));
                    assert forall|a: int, b: int|
                        #![trigger self@[a].id, self@[b].id]
                        0 <= a < b < self@.len() implies self@[a].id != self@[b].id by {
                        let a2: int = if a < i as int { a } else { a + 1 };
                        let b2: int = if b < i as int { b } else { b + 1 };
                        assert(self@[a] == old(self)@[a2]);
                        assert(self@[b] == old(self)@[b2]);
                        assert(old(self)@[a2].id != old(self)@[b2].id);
                    }
                    assert forall|a: int| 0 <= a < self@.len() implies #[trigger] self@[a].title.len()
                        <= 0xffff_0000 by {
                        let a2: int = if a < i as int { a } else { a + 1 };
                        assert(self@[a] == old(self)@[a2]);
                        assert(old(self)@[a2].title.len() <= 0xffff_0000);
                    }
                }
                return Some(rec);
            }
            i += 1;
        }
        proof {
            lemma_find_none(self@, id);
            lemma_remove_id_absent(self@, id);
        }
        None
    }

    /// The listing lines of the whole store, in store order.
    pub fn list_summaries(&self) -> (out: Vec<Vec<u8>>)
        requires
            self.wf(),
        ensures
            out@.map_values(|s: Vec<u8>| s@) == spec_summaries(self@),
            out@.len() == self@.len(),
            forall|i: int| 0 <= i < out@.len() ==> #[trigger] out@[i].len() <= 0xffff_ffff,
    {
        let mut out: Vec<Vec<u8>> = Vec::new();
        let mut i: usize = 0;
        while i < self.records.len()
            invariant
                i <= self.records.len(),
                self.wf(),
                self@.len() == self.records@.len(),
                forall|j: int| 0 <= j < self@.len() ==> self@[j] == self.records@[j]@,
                out@.len() == i,
                forall|j: int| 0 <= j < i ==> #[trigger] out@[j]@ == spec_summary(self@[j]),
                forall|j: int| 0 <= j < i ==> #[trigger] out@[j].len() <= 0xffff_ffff,
            decreases self.records.len() - i,
        {
            let rec = &self.records[i];
            let mut line = uuid_text(rec.id);
            line.push(58);
            crate::protocol::append_bytes(&mut line, &rec.title);
            proof {
                assert(line@ =~= spec_summary(self@[i as int]));
            }
            out.push(line);
            i += 1;
        }
        proof {
            assert(out@.map_values(|s: Vec<u8>| s@) =~= spec_summaries(self@));
        }
        out
    }

    /// How many records the store holds.
    pub fn len(&self) -> (n: usize)
        ensures
            n == self@.len(),
    {
        self.records.len()
    }
}

} // verus!
