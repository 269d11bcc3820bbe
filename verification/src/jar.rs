//! The collection of cookies that a parse gives.
//!
//! A jar holds at most one record for each domain, path and name. Adding a
//! record for a cookie that the jar already holds replaces the older record
//! in its place; any other record goes to the end.
use vstd::prelude::*;
use crate::record::{applies, identity, CookieRecord, Identity, RecordModel};

verus! {

/// Some record of `s` is the cookie `id`.
pub open spec fn holds(s: Seq<RecordModel>, id: Identity) -> bool {
    exists|i: int| 0 <= i < s.len() && identity(#[trigger] s[i]) == id
}

/// Where `s` holds the cookie `id`, if it holds it.
pub open spec fn slot(s: Seq<RecordModel>, id: Identity) -> int {
    choose|i: int| 0 <= i < s.len() && identity(#[trigger] s[i]) == id
}

/// The record that `s` holds for the cookie `id`.
pub open spec fn lookup(s: Seq<RecordModel>, id: Identity) -> Option<RecordModel> {
    if holds(s, id) {
        Some(s[slot(s, id)])
    } else {
        None
    }
}

/// No two records of `s` are the same cookie.
pub open spec fn distinct(s: Seq<RecordModel>) -> bool {
    forall|i: int, j: int|
        0 <= i < j < s.len() ==> identity(#[trigger] s[i]) != identity(#[trigger] s[j])
}

/// `s` after `r` was added: in the place of the record for the same cookie,
/// or at the end where there is none.
pub open spec fn put(s: Seq<RecordModel>, r: RecordModel) -> Seq<RecordModel> {
    if holds(s, identity(r)) {
        s.update(slot(s, identity(r)), r)
    } else {
        s.push(r)
    }
}

/// The jar that results from adding `records` one by one, first to last, to
/// an empty jar.
pub open spec fn collect(records: Seq<RecordModel>) -> Seq<RecordModel>
    decreases records.len(),
{
    if records.len() == 0 {
        Seq::<RecordModel>::empty()
    } else {
        put(collect(records.drop_last()), records.last())
    }
}

/// What a list of records stands for.
pub open spec fn models(records: Seq<CookieRecord>) -> Seq<RecordModel> {
    records.map_values(|r: CookieRecord| r@)
}

/// In a jar without duplicates, a cookie sits where any record for it sits.
pub proof fn lemma_slot_unique(s: Seq<RecordModel>, i: int)
    requires
        distinct(s),
        0 <= i < s.len(),
    ensures
        holds(s, identity(s[i])),
        slot(s, identity(s[i])) == i,
{
    let id = identity(s[i]);
    let c = slot(s, id);
    assert(0 <= c < s.len() && identity(s[c]) == id);
    if c < i {
        assert(identity(s[c]) != identity(s[i]));
    } else if i < c {
        assert(identity(s[i]) != identity(s[c]));
    }
}

/// Adding a record keeps a jar free of duplicates.
pub proof fn lemma_put_distinct(s: Seq<RecordModel>, r: RecordModel)
    requires
        distinct(s),
    ensures
        distinct(put(s, r)),
{
    let t = put(s, r);
    if holds(s, identity(r)) {
        let c = slot(s, identity(r));
        assert forall|i: int, j: int| 0 <= i < j < t.len() implies identity(#[trigger] t[i])
            != identity(#[trigger] t[j]) by {
            assert(identity(t[i]) == identity(s[i]));
            assert(identity(t[j]) == identity(s[j]));
        }
    } else {
        assert forall|i: int, j: int| 0 <= i < j < t.len() implies identity(#[trigger] t[i])
            != identity(#[trigger] t[j]) by {
            if j == s.len() {
                assert(t[i] == s[i]);
            } else {
                assert(t[i] == s[i] && t[j] == s[j]);
            }
        }
    }
}

/// The cookies read from one input, at most one for each domain, path and
/// name.
#[derive(Clone, Debug)]
pub struct Cookies {
    records: Vec<CookieRecord>,
}

impl View for Cookies {
    type V = Seq<RecordModel>;

    closed spec fn view(&self) -> Seq<RecordModel> {
        models(self.records@)
    }
}

impl Cookies {
    /// The jar holds no cookie twice.
    pub open spec fn wf(&self) -> bool {
        distinct(self@)
    }

    /// An empty jar.
    pub fn new() -> (jar: Cookies)
        ensures
            jar.wf(),
            jar@ == Seq::<RecordModel>::empty(),
    {
        let jar = Cookies { records: Vec::new() };
        proof {
            assert(jar@ =~= Seq::<RecordModel>::empty());
        }
        jar
    }

    /// Number of cookies in the jar.
    pub fn len(&self) -> (n: usize)
        ensures
            n == self@.len(),
    {
        self.records.len()
    }

    /// Whether the jar holds no cookie.
    pub fn is_empty(&self) -> (empty: bool)
        ensures
            empty == (self@.len() == 0),
    {
        self.records.len() == 0
    }

    /// The record at position `i`, counted in the order in which the cookies
    /// first came in.
    pub fn record(&self, i: usize) -> (r: &CookieRecord)
        requires
            i < self@.len(),
        ensures
            r@ == self@[i as int],
    {
        &self.records[i]
    }

    /// All records, in the order in which the cookies first came in.
    pub fn records(&self) -> (all: &[CookieRecord])
        ensures
            models(all@) == self@,
    {
        self.records.as_slice()
    }

    /// The positions of the cookies for this domain and path, in rising
    /// order.
    pub fn positions_at(&self, domain: &[u8], path: &[u8]) -> (found: Vec<usize>)
        ensures
            forall|k: int|
                0 <= k < found.len() ==> (#[trigger] found[k]) < self@.len() && applies(
                    self@[found[k] as int],
                    domain@,
                    path@,
                ),
            forall|i: int|
                0 <= i < self@.len() && applies(#[trigger] self@[i], domain@, path@) ==> exists|
                    k: int,
                |
                    0 <= k < found.len() && found[k] == i,
            forall|j: int, k: int| 0 <= j < k < found.len() ==> found[j] < found[k],
    {
        let mut found: Vec<usize> = Vec::new();
        let mut i: usize = 0;
        while i < self.records.len()
            invariant
                i <= self.records.len(),
                self@ == models(self.records@),
                forall|k: int|
                    0 <= k < found.len() ==> (#[trigger] found[k]) < i && applies(
                        self@[found[k] as int],
                        domain@,
                        path@,
                    ),
                forall|n: int|
                    0 <= n < i && applies(#[trigger] self@[n], domain@, path@) ==> exists|k: int|
                        0 <= k < found.len() && found[k] == n,
                forall|j: int, k: int| 0 <= j < k < found.len() ==> found[j] < found[k],
            decreases self.records.len() - i,
        {
            if self.records[i].is_at(domain, path) {
                let ghost before = found@;
                found.push(i);
                proof {
                    assert forall|n: int|
                        0 <= n < i + 1 && applies(#[trigger] self@[n], domain@, path@) implies exists|
                        k: int,
                    |
                        0 <= k < found.len() && found[k] == n by {
                        if n < i {
                            let k = choose|k: int| 0 <= k < before.len() && before[k] == n;
                            assert(found[k] == n);
                        } else {
                            assert(found[found.len() - 1] == n);
                        }
                    }
                }
            }
            i += 1;
        }
        found
    }

    /// The position of the cookie with this domain, path and name.
    pub fn position(&self, domain: &[u8], path: &[u8], name: &[u8]) -> (found: Option<usize>)
        ensures
            match found {
                Some(i) => i < self@.len() && identity(self@[i as int]) == (
                    domain@,
                    path@,
                    name@,
                ),
                None => !holds(self@, (domain@, path@, name@)),
            },
    {
        let mut i: usize = 0;
        while i < self.records.len()
            invariant
                i <= self.records.len(),
                self@ == models(self.records@),
                forall|j: int|
                    0 <= j < i ==> identity(#[trigger] self@[j]) != (domain@, path@, name@),
            decreases self.records.len() - i,
        {
            if self.records[i].is_cookie(domain, path, name) {
                return Some(i);
            }
            i += 1;
        }
        None
    }

    /// The record for the cookie with this domain, path and name, if the jar
    /// holds one.
    pub fn get(&self, domain: &[u8], path: &[u8], name: &[u8]) -> (found: Option<&CookieRecord>)
        requires
            self.wf(),
        ensures
            match found {
                Some(r) => Some(r@),
                None => None,
            } == lookup(self@, (domain@, path@, name@)),
    {
        match self.position(domain, path, name) {
            Some(i) => {
                proof {
                    lemma_slot_unique(self@, i as int);
                }
                Some(&self.records[i])
            },
            None => None,
        }
    }

    /// Adds `record`. A record that the jar holds for the same domain, path
    /// and name is replaced by it.
    pub fn add(&mut self, record: CookieRecord)
        requires
            old(self).wf(),
        ensures
            final(self).wf(),
            final(self)@ == put(old(self)@, record@),
    {
        let found = self.position(
            record.domain.as_slice(),
            record.path.as_slice(),
            record.name.as_slice(),
        );
        proof {
            lemma_put_distinct(self@, record@);
        }
        match found {
            Some(i) => {
                proof {
                    lemma_slot_unique(self@, i as int);
                }
                self.records.set(i, record);
                proof {
                    assert(self@ =~= old(self)@.update(i as int, record@));
                }
            },
            None => {
                self.records.push(record);
                proof {
                    assert(self@ =~= old(self)@.push(record@));
                }
            },
        }
    }

    /// The jar that holds `records`, added first to last.
    pub fn from_records(records: &[CookieRecord]) -> (jar: Cookies)
        ensures
            jar.wf(),
            jar@ == collect(models(records@)),
    {
        let mut jar = Cookies::new();
        let mut i: usize = 0;
        proof {
            assert(models(records@).take(0) =~= Seq::<RecordModel>::empty());
        }
        while i < records.len()
            invariant
                i <= records.len(),
                jar.wf(),
                jar@ == collect(models(records@).take(i as int)),
            decreases records.len() - i,
        {
            proof {
                let all = models(records@);
                assert(all.take(i + 1).drop_last() =~= all.take(i as int));
                assert(all.take(i + 1).last() == records@[i as int]@);
            }
            jar.add(records[i].duplicate());
            i += 1;
        }
        proof {
            assert(models(records@).take(i as int) =~= models(records@));
        }
        jar
    }
}

} // verus!
