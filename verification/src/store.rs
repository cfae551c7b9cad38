//! In-memory model of the record store: prompt records keyed by `id`, plus a
//! string-keyed metadata table.
//!
//! The store offers exactly the operations the export/import engines consume:
//! enumerate-all, transactional bulk upsert, and get/set of metadata keys.

use vstd::prelude::*;

use crate::chars::chars_of;
use crate::chars::eq_chars;
use crate::prompt::Prompt;
use crate::prompt::PromptV;

verus! {

/// Structural version of the prompt record shape, stamped into every export
/// header.
pub const SCHEMA_VERSION: i32 = 1;

/// No two records share an `id`.
pub open spec fn ids_distinct(s: Seq<PromptV>) -> bool {
    forall|i: int, j: int| 0 <= i < j < s.len() ==> (#[trigger] s[i]).id != (#[trigger] s[j]).id
}

/// Index of the first record with the given `id`, or `-1`.
pub open spec fn find_id(s: Seq<PromptV>, id: Seq<char>) -> int
    decreases s.len(),
{
    if s.len() == 0 {
        -1
    } else if s[0].id == id {
        0
    } else {
        let r = find_id(s.drop_first(), id);
        if r == -1 {
            -1
        } else {
            r + 1
        }
    }
}

/// One upsert: overwrite the record with the same `id`, or append.
pub open spec fn upsert_one(s: Seq<PromptV>, p: PromptV) -> Seq<PromptV> {
    let j = find_id(s, p.id);
    if j == -1 {
        s.push(p)
    } else {
        s.update(j, p)
    }
}

/// Upserts applied left to right.
pub open spec fn upsert_all(s: Seq<PromptV>, ps: Seq<PromptV>) -> Seq<PromptV>
    decreases ps.len(),
{
    if ps.len() == 0 {
        s
    } else {
        upsert_all(upsert_one(s, ps[0]), ps.drop_first())
    }
}

/// Lookup in an association sequence: the first pair with the given key.
pub open spec fn get_assoc(m: Seq<(Seq<char>, Seq<char>)>, k: Seq<char>) -> Option<Seq<char>>
    decreases m.len(),
{
    if m.len() == 0 {
        None
    } else if m[0].0 == k {
        Some(m[0].1)
    } else {
        get_assoc(m.drop_first(), k)
    }
}

/// What `find_id` returns: the first matching index, or `-1` when none
/// matches.
pub proof fn lemma_find_id_props(s: Seq<PromptV>, id: Seq<char>)
    ensures
        find_id(s, id) == -1 ==> forall|i: int|
            0 <= i < s.len() ==> (#[trigger] s[i]).id != id,
        find_id(s, id) != -1 ==> 0 <= find_id(s, id) < s.len() && s[find_id(s, id)].id == id
            && forall|i: int| 0 <= i < find_id(s, id) ==> (#[trigger] s[i]).id != id,
    decreases s.len(),
{
    if s.len() > 0 && s[0].id != id {
        let t = s.drop_first();
        lemma_find_id_props(t, id);
        assert(forall|i: int| 0 <= i < t.len() ==> #[trigger] t[i] == s[i + 1]);
        if find_id(s, id) == -1 {
            assert forall|i: int| 0 <= i < s.len() implies (#[trigger] s[i]).id != id by {
                if i > 0 {
                    assert(t[i - 1] == s[i]);
                }
            }
        } else {
            let r = find_id(t, id);
            assert(find_id(s, id) == r + 1);
            assert(t[r] == s[r + 1]);
            assert forall|i: int| 0 <= i < r + 1 implies (#[trigger] s[i]).id != id by {
                if i > 0 {
                    assert(t[i - 1] == s[i]);
                }
            }
        }
    }
}

/// Upsert of a run of records, taken one more at a time.
pub proof fn lemma_upsert_all_snoc(s: Seq<PromptV>, ps: Seq<PromptV>, p: PromptV)
    ensures
        upsert_all(s, ps.push(p)) == upsert_one(upsert_all(s, ps), p),
    decreases ps.len(),
{
    if ps.len() == 0 {
        assert(ps.push(p)[0] == p);
        assert(ps.push(p).drop_first() =~= Seq::<PromptV>::empty());
        assert(upsert_all(s, ps.push(p)) == upsert_all(
            upsert_one(s, p),
            ps.push(p).drop_first(),
        ));
        assert(upsert_all(upsert_one(s, p), Seq::<PromptV>::empty()) == upsert_one(s, p));
    } else {
        assert(ps.push(p)[0] == ps[0]);
        assert(ps.push(p).drop_first() =~= ps.drop_first().push(p));
        assert(upsert_all(s, ps.push(p)) == upsert_all(
            upsert_one(s, ps[0]),
            ps.drop_first().push(p),
        ));
        lemma_upsert_all_snoc(upsert_one(s, ps[0]), ps.drop_first(), p);
        assert(upsert_all(s, ps) == upsert_all(upsert_one(s, ps[0]), ps.drop_first()));
    }
}

/// A single upsert keeps the `id`s distinct.
pub proof fn lemma_upsert_one_wf(s: Seq<PromptV>, p: PromptV)
    requires
        ids_distinct(s),
    ensures
        ids_distinct(upsert_one(s, p)),
{
    lemma_find_id_props(s, p.id);
    let j = find_id(s, p.id);
    if j == -1 {
        let r = s.push(p);
        assert forall|a: int, b: int| 0 <= a < b < r.len() implies (#[trigger] r[a]).id != (
        #[trigger] r[b]).id by {
            if b == s.len() {
                assert(r[a] == s[a]);
            }
        }
    } else {
        let r = s.update(j, p);
        assert forall|a: int, b: int| 0 <= a < b < r.len() implies (#[trigger] r[a]).id != (
        #[trigger] r[b]).id by {
            assert(s[j].id == p.id);
        }
    }
}

/// Upserting records with fresh, pairwise-distinct `id`s appends them in
/// order.
pub proof fn lemma_upsert_all_fresh(s: Seq<PromptV>, ps: Seq<PromptV>)
    requires
        ids_distinct(s + ps),
    ensures
        upsert_all(s, ps) == s + ps,
    decreases ps.len(),
{
    if ps.len() == 0 {
        assert(s + ps =~= s);
    } else {
        let t = s + ps;
        assert(forall|i: int| 0 <= i < s.len() ==> #[trigger] t[i] == s[i]);
        assert(forall|i: int|
            0 <= i < ps.len() ==> #[trigger] t[s.len() + i] == ps[i]);
        lemma_find_id_props(s, ps[0].id);
        assert(find_id(s, ps[0].id) == -1) by {
            if find_id(s, ps[0].id) != -1 {
                let j = find_id(s, ps[0].id);
                assert(t[j].id == t[s.len() as int].id);
            }
        }
        assert(upsert_one(s, ps[0]) == s.push(ps[0]));
        assert(s.push(ps[0]) + ps.drop_first() =~= s + ps);
        lemma_upsert_all_fresh(s.push(ps[0]), ps.drop_first());
        assert(upsert_all(s, ps) == upsert_all(s.push(ps[0]), ps.drop_first()));
    }
}

/// The record store: durable storage of prompt records plus a string-keyed
/// metadata side table.
pub struct Store {
    prompts: Vec<Prompt>,
    meta: Vec<(String, String)>,
}

impl Store {
    /// The record sequence this store holds, in enumeration order.
    pub closed spec fn prompts_view(&self) -> Seq<PromptV> {
        self.prompts.deep_view()
    }

    /// The metadata table as an association sequence.
    pub closed spec fn meta_view(&self) -> Seq<(Seq<char>, Seq<char>)> {
        self.meta.deep_view()
    }

    /// The value stored under a metadata key, if any.
    pub open spec fn spec_get_meta(&self, k: Seq<char>) -> Option<Seq<char>> {
        get_assoc(self.meta_view(), k)
    }

    /// Store invariant: record `id`s unique, metadata keys unique.
    pub open spec fn wf(&self) -> bool {
        &&& ids_distinct(self.prompts_view())
        &&& forall|i: int, j: int|
            0 <= i < j < self.meta_view().len() ==> (#[trigger] self.meta_view()[i]).0 != (
            #[trigger] self.meta_view()[j]).0
    }

    /// An empty store: no records, no metadata.
    pub fn new() -> (s: Store)
        ensures
            s.wf(),
            s.prompts_view() == Seq::<PromptV>::empty(),
            forall|k: Seq<char>| s.spec_get_meta(k) is None,
    {
        let s = Store { prompts: Vec::new(), meta: Vec::new() };
        proof {
            assert(s.prompts_view() =~= Seq::<PromptV>::empty());
            assert(s.meta_view() =~= Seq::<(Seq<char>, Seq<char>)>::empty());
        }
        s
    }

    /// Enumerates the full record set, in stable store order.
    pub fn list_prompts(&self) -> (r: Vec<Prompt>)
        ensures
            r.deep_view() == self.prompts_view(),
    {
        let mut r: Vec<Prompt> = Vec::new();
        let mut i: usize = 0;
        while i < self.prompts.len()
            invariant
                i <= self.prompts@.len(),
                r@.len() == i,
                forall|j: int| 0 <= j < i ==> r@[j]@ == #[trigger] self.prompts@[j]@,
            decreases self.prompts@.len() - i,
        {
            r.push(self.prompts[i].duplicate());
            i = i + 1;
        }
        proof {
            assert(r.deep_view() =~= self.prompts_view());
        }
        r
    }

    /// Index of the record with this `id`, if present.
    fn position_of_id(&self, id: &String) -> (r: Option<usize>)
        ensures
            match r {
                Some(j) => j == find_id(self.prompts_view(), id@) && j
                    < self.prompts_view().len(),
                None => find_id(self.prompts_view(), id@) == -1,
            },
    {
        proof {
            lemma_find_id_props(self.prompts_view(), id@);
        }
        let mut i: usize = 0;
        while i < self.prompts.len()
            invariant
                i <= self.prompts@.len(),
                forall|j: int|
                    0 <= j < i ==> (#[trigger] self.prompts_view()[j]).id != id@,
            decreases self.prompts@.len() - i,
        {
            if self.prompts[i].id == *id {
                proof {
                    let k = find_id(self.prompts_view(), id@);
                    lemma_find_id_props(self.prompts_view(), id@);
                    assert(self.prompts_view()[i as int].id == id@);
                    if k == -1 {
                        assert(false);
                    }
                    if k < i {
                        assert((self.prompts_view()[k]).id == id@);
                    }
                    if k > i {
                        assert((self.prompts_view()[i as int]).id != id@);
                    }
                }
                return Some(i);
            }
            i = i + 1;
        }
        proof {
            lemma_find_id_props(self.prompts_view(), id@);
            if find_id(self.prompts_view(), id@) != -1 {
                assert((self.prompts_view()[find_id(self.prompts_view(), id@)]).id == id@);
            }
        }
        None
    }

    /// One transactional bulk upsert: every record lands, each by its `id`,
    /// overwriting rather than duplicating. The metadata table is untouched.
    pub fn bulk_upsert_prompts(&mut self, records: &Vec<Prompt>)
        requires
            old(self).wf(),
        ensures
            final(self).wf(),
            final(self).prompts_view() == upsert_all(
                old(self).prompts_view(),
                records.deep_view(),
            ),
            final(self).meta_view() == old(self).meta_view(),
    {
        let ghost orig = self.prompts_view();
        let ghost rs = records.deep_view();
        let mut i: usize = 0;
        while i < records.len()
            invariant
                old(self).wf(),
                i <= records@.len(),
                rs == records.deep_view(),
                self.prompts_view() == upsert_all(orig, rs.take(i as int)),
                self.meta_view() == old(self).meta_view(),
                ids_distinct(self.prompts_view()),
                orig == old(self).prompts_view(),
            decreases records@.len() - i,
        {
            let ghost before = self.prompts_view();
            let rec = &records[i];
            match self.position_of_id(&rec.id) {
                Some(j) => {
                    self.prompts.set(j, rec.duplicate());
                    proof {
                        assert(self.prompts_view() =~= before.update(j as int, rs[i as int]));
                    }
                },
                None => {
                    self.prompts.push(rec.duplicate());
                    proof {
                        assert(self.prompts_view() =~= before.push(rs[i as int]));
                    }
                },
            }
            proof {
                assert(self.prompts_view() == upsert_one(before, rs[i as int]));
                lemma_upsert_one_wf(before, rs[i as int]);
                assert(rs.take(i + 1).drop_last() =~= rs.take(i as int));
                assert(rs.take(i + 1) == rs.take(i as int).push(rs[i as int]));
                lemma_upsert_all_snoc(orig, rs.take(i as int), rs[i as int]);
            }
            i = i + 1;
        }
        proof {
            assert(rs.take(rs.len() as int) =~= rs);
        }
    }

    /// Reads a metadata key.
    pub fn get_meta(&self, key: &str) -> (r: Option<String>)
        ensures
            match r {
                Some(v) => self.spec_get_meta(key@) == Some(v@),
                None => self.spec_get_meta(key@) is None,
            },
    {
        let kv = chars_of(key);
        proof {
            assert(self.meta_view().skip(0) =~= self.meta_view());
        }
        let mut i: usize = 0;
        while i < self.meta.len()
            invariant
                i <= self.meta@.len(),
                kv@ == key@,
                get_assoc(self.meta_view(), key@) == get_assoc(
                    self.meta_view().skip(i as int),
                    key@,
                ),
            decreases self.meta@.len() - i,
        {
            let ki = chars_of(self.meta[i].0.as_str());
            proof {
                assert(self.meta_view().skip(i as int)[0] == self.meta_view()[i as int]);
                assert(self.meta_view().skip(i as int).drop_first() =~= self.meta_view().skip(
                    i + 1,
                ));
            }
            if eq_chars(&ki, &kv) {
                return Some(self.meta[i].1.clone());
            }
            i = i + 1;
        }
        proof {
            assert(self.meta_view().skip(self.meta@.len() as int)
                =~= Seq::<(Seq<char>, Seq<char>)>::empty());
        }
        None
    }

    /// Writes a metadata key: the new value is visible under exactly that
    /// key, every other key is unchanged, and the record set is untouched.
    pub fn set_meta(&mut self, key: &str, value: &str)
        requires
            old(self).wf(),
        ensures
            final(self).wf(),
            final(self).spec_get_meta(key@) == Some(value@),
            forall|k: Seq<char>|
                k != key@ ==> final(self).spec_get_meta(k) == old(self).spec_get_meta(k),
            final(self).prompts_view() == old(self).prompts_view(),
    {
        let kv = chars_of(key);
        let ghost m0 = self.meta_view();
        let mut i: usize = 0;
        while i < self.meta.len()
            invariant
                old(self).wf(),
                i <= self.meta@.len(),
                kv@ == key@,
                self == old(self),
                m0 == self.meta_view(),
                forall|j: int| 0 <= j < i ==> (#[trigger] self.meta_view()[j]).0 != key@,
            decreases self.meta@.len() - i,
        {
            let ki = chars_of(self.meta[i].0.as_str());
            if eq_chars(&ki, &kv) {
                let k_owned = self.meta[i].0.clone();
                let ghost mv0 = self.meta@;
                proof {
                    assert(k_owned@ == key@);
                }
                self.meta.set(i, (k_owned, value.to_owned()));
                proof {
                    let m1 = self.meta_view();
                    let e = self.meta@[i as int];
                    assert(e.deep_view() == (key@, value@));
                    assert(mv0 == old(self).meta@);
                    assert(m0.len() == mv0.len());
                    assert(self.meta@.len() == mv0.len());
                    assert(m1.len() == self.meta@.len());
                    assert(i < m0.len());
                    assert forall|j: int| 0 <= j < m1.len() implies m1[j] == #[trigger] m0.update(
                        i as int,
                        (key@, value@),
                    )[j] by {
                        if j == i {
                            assert(m1[j] == self.meta@[j].deep_view());
                            assert(m0.update(i as int, (key@, value@))[j] == (key@, value@));
                        } else {
                            assert(self.meta@[j] == mv0[j]);
                            assert(m1[j] == self.meta@[j].deep_view());
                            assert(m0[j] == mv0[j].deep_view());
                            assert(m0.update(i as int, (key@, value@))[j] == m0[j]);
                        }
                    }
                    assert(m1 =~= m0.update(i as int, (key@, value@)));
                    lemma_get_assoc_prefix_miss(m1, key@, i as int);
                    assert(m1.skip(i as int)[0] == (key@, value@));
                    assert forall|k: Seq<char>| k != key@ implies get_assoc(m1, k) == get_assoc(
                        m0,
                        k,
                    ) by {
                        lemma_get_assoc_update_other(m0, i as int, (key@, value@), k);
                    }
                }
                return ;
            }
            i = i + 1;
        }
        let ghost mv0 = self.meta@;
        self.meta.push((key.to_owned(), value.to_owned()));
        proof {
            let m1 = self.meta_view();
            let e = self.meta@[mv0.len() as int];
            assert(e.deep_view() == (key@, value@));
            assert(mv0 == old(self).meta@);
            assert(m0.len() == mv0.len());
            assert(self.meta@.len() == mv0.len() + 1);
            assert(m1.len() == self.meta@.len());
            assert forall|j: int| 0 <= j < m1.len() implies m1[j] == #[trigger] m0.push(
                (key@, value@),
            )[j] by {
                if j == mv0.len() {
                    assert(m1[j] == self.meta@[j].deep_view());
                    assert(m0.push((key@, value@))[j] == (key@, value@));
                } else {
                    assert(self.meta@[j] == mv0[j]);
                    assert(m1[j] == self.meta@[j].deep_view());
                    assert(m0[j] == mv0[j].deep_view());
                    assert(m0.push((key@, value@))[j] == m0[j]);
                }
            }
            assert(m1 =~= m0.push((key@, value@)));
            lemma_get_assoc_prefix_miss(m1, key@, m0.len() as int);
            assert(m1.skip(m0.len() as int)[0] == (key@, value@));
            assert forall|k: Seq<char>| k != key@ implies get_assoc(m1, k) == get_assoc(
                m0,
                k,
            ) by {
                lemma_get_assoc_push_other(m0, (key@, value@), k);
            }
            assert forall|a: int, b: int| 0 <= a < b < m1.len() implies (#[trigger] m1[a]).0 != (
            #[trigger] m1[b]).0 by {
                if b == m0.len() {
                    assert(m1[a] == m0[a]);
                    assert(m0[a].0 != key@);
                }
            }
        }
    }
}

/// When no key in the first `i` pairs matches, lookup starts at index `i`.
proof fn lemma_get_assoc_prefix_miss(m: Seq<(Seq<char>, Seq<char>)>, k: Seq<char>, i: int)
    requires
        0 <= i <= m.len(),
        forall|j: int| 0 <= j < i ==> (#[trigger] m[j]).0 != k,
    ensures
        get_assoc(m, k) == get_assoc(m.skip(i), k),
    decreases i,
{
    if i > 0 {
        assert(m.drop_first() =~= m.skip(1));
        assert(forall|j: int|
            0 <= j < i - 1 ==> #[trigger] m.skip(1)[j] == m[j + 1]);
        lemma_get_assoc_prefix_miss(m.skip(1), k, i - 1);
        assert(m.skip(1).skip(i - 1) =~= m.skip(i));
    } else {
        assert(m.skip(0) =~= m);
    }
}

/// Updating one pair leaves lookups under other keys unchanged, provided the
/// key at that position is the updated pair's key.
proof fn lemma_get_assoc_update_other(
    m: Seq<(Seq<char>, Seq<char>)>,
    i: int,
    e: (Seq<char>, Seq<char>),
    k: Seq<char>,
)
    requires
        0 <= i < m.len(),
        m[i].0 == e.0,
        k != e.0,
    ensures
        get_assoc(m.update(i, e), k) == get_assoc(m, k),
    decreases m.len(),
{
    let m1 = m.update(i, e);
    if i == 0 {
        assert(m1[0] == e);
        assert(m1.drop_first() =~= m.drop_first());
    } else {
        assert(m1[0] == m[0]);
        assert(m1.drop_first() =~= m.drop_first().update(i - 1, e));
        if m[0].0 != k {
            lemma_get_assoc_update_other(m.drop_first(), i - 1, e, k);
        }
    }
}

/// Appending a pair leaves lookups under other keys unchanged.
proof fn lemma_get_assoc_push_other(
    m: Seq<(Seq<char>, Seq<char>)>,
    e: (Seq<char>, Seq<char>),
    k: Seq<char>,
)
    requires
        k != e.0,
    ensures
        get_assoc(m.push(e), k) == get_assoc(m, k),
    decreases m.len(),
{
    let m1 = m.push(e);
    if m.len() == 0 {
        assert(m1[0] == e);
        assert(m1.drop_first() =~= Seq::<(Seq<char>, Seq<char>)>::empty());
    } else {
        assert(m1[0] == m[0]);
        assert(m1.drop_first() =~= m.drop_first().push(e));
        lemma_get_assoc_push_other(m.drop_first(), e, k);
    }
}

} // verus!
