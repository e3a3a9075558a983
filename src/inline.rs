//! The judgements held inside an identity record: a sequence of
//! `(id, judgement)` pairs kept strictly increasing by id.
use crate::error::Error;
use crate::judgement::Judgement;
use vstd::prelude::*;

verus! {

/// Ids strictly increase along the sequence, so no id occurs twice.
pub open spec fn ids_increasing(s: Seq<(u32, Judgement)>) -> bool {
    forall|i: int, j: int| 0 <= i < j < s.len() ==> s[i].0 < s[j].0
}

/// Some entry of `s` has id `id`.
pub open spec fn holds_id(s: Seq<(u32, Judgement)>, id: u32) -> bool {
    exists|i: int| 0 <= i < s.len() && s[i].0 == id
}

/// The position of the entry with id `id` (meaningful when `holds_id`).
pub open spec fn index_of(s: Seq<(u32, Judgement)>, id: u32) -> int {
    choose|i: int| 0 <= i < s.len() && s[i].0 == id
}

/// `p` splits `s` into the entries with smaller ids and those with larger ids.
pub open spec fn splits_at(s: Seq<(u32, Judgement)>, id: u32, p: int) -> bool {
    &&& 0 <= p <= s.len()
    &&& forall|i: int| 0 <= i < p ==> s[i].0 < id
    &&& forall|i: int| p <= i < s.len() ==> s[i].0 > id
}

/// Where an entry with id `id` goes so that ids keep increasing.
pub open spec fn insertion_point(s: Seq<(u32, Judgement)>, id: u32) -> int {
    choose|p: int| splits_at(s, id, p)
}

/// The value that `id` has in `s`, if any.
pub open spec fn lookup(s: Seq<(u32, Judgement)>, id: u32) -> Option<Judgement> {
    if holds_id(s, id) {
        Some(s[index_of(s, id)].1)
    } else {
        None
    }
}

/// Insert-or-replace of `(id, v)` into an id-ordered sequence holding at most
/// `max` entries: a sticky value at `id` is never replaced, another value is
/// overwritten in place, and a new id goes to its ordered position unless the
/// sequence is full.
pub open spec fn inline_insert(s: Seq<(u32, Judgement)>, id: u32, v: Judgement, max: nat) -> Result<
    Seq<(u32, Judgement)>,
    Error,
> {
    if holds_id(s, id) {
        if s[index_of(s, id)].1.spec_is_sticky() {
            Err(Error::StickyJudgement)
        } else {
            Ok(s.update(index_of(s, id), (id, v)))
        }
    } else if s.len() >= max {
        Err(Error::TooManyJudgements)
    } else {
        Ok(s.insert(insertion_point(s, id), (id, v)))
    }
}

/// The entries of `s` whose judgement is sticky, in their order.
pub open spec fn sticky_only(s: Seq<(u32, Judgement)>) -> Seq<(u32, Judgement)> {
    s.filter(|e: (u32, Judgement)| e.1.spec_is_sticky())
}

/// In an id-ordered sequence, the entry with a given id is the only one.
pub proof fn lemma_index_unique(s: Seq<(u32, Judgement)>, id: u32, i: int)
    requires
        ids_increasing(s),
        0 <= i < s.len(),
        s[i].0 == id,
    ensures
        holds_id(s, id),
        index_of(s, id) == i,
        lookup(s, id) == Some(s[i].1),
{
    let j = index_of(s, id);
    assert(0 <= j < s.len() && s[j].0 == id);
    if j < i {
        assert(s[j].0 < s[i].0);
    } else if i < j {
        assert(s[i].0 < s[j].0);
    }
}

/// A split point, when it exists, is the insertion point.
pub proof fn lemma_split_unique(s: Seq<(u32, Judgement)>, id: u32, p: int)
    requires
        splits_at(s, id, p),
    ensures
        !holds_id(s, id),
        insertion_point(s, id) == p,
        lookup(s, id) == None::<Judgement>,
{
    let q = insertion_point(s, id);
    assert(splits_at(s, id, q));
    if q < p {
        assert(s[q].0 < id && s[q].0 > id);
    } else if p < q {
        assert(s[p].0 < id && s[p].0 > id);
    }
    assert(!holds_id(s, id)) by {
        if holds_id(s, id) {
            let i = choose|i: int| 0 <= i < s.len() && s[i].0 == id;
            if i < p {
                assert(s[i].0 < id);
            } else {
                assert(s[i].0 > id);
            }
        }
    }
}

/// Insert-or-replace keeps a sequence ordered by id, and within its bound:
/// whatever the inserted pair, a successful insertion into a strictly
/// increasing sequence of at most `max` entries yields a strictly increasing
/// sequence of at most `max` entries.
pub proof fn lemma_inline_insert_keeps_order(
    s: Seq<(u32, Judgement)>,
    id: u32,
    v: Judgement,
    max: nat,
)
    requires
        ids_increasing(s),
        s.len() <= max,
    ensures
        inline_insert(s, id, v, max) matches Ok(t) ==> ids_increasing(t) && t.len() <= max,
{
    if holds_id(s, id) {
        let i = index_of(s, id);
        lemma_index_unique(s, id, i);
    } else if s.len() < max {
        let p = insertion_point(s, id);
        assert(splits_at(s, id, p)) by {
            lemma_split_exists(s, id);
        }
        let t = s.insert(p, (id, v));
        assert forall|i: int, j: int| 0 <= i < j < t.len() implies t[i].0 < t[j].0 by {
            if j < p {
            } else if j == p {
            } else if i < p {
            } else if i == p {
            } else {
                assert(s[i - 1].0 < s[j - 1].0);
            }
        }
    }
}

/// An id that a strictly increasing sequence lacks has a split point.
pub proof fn lemma_split_exists(s: Seq<(u32, Judgement)>, id: u32)
    requires
        ids_increasing(s),
        !holds_id(s, id),
    ensures
        exists|p: int| splits_at(s, id, p),
    decreases s.len(),
{
    if s.len() == 0 {
        assert(splits_at(s, id, 0));
    } else {
        let init = s.drop_last();
        assert(!holds_id(init, id)) by {
            if holds_id(init, id) {
                let i = choose|i: int| 0 <= i < init.len() && init[i].0 == id;
                assert(s[i].0 == id);
            }
        }
        lemma_split_exists(init, id);
        let p = choose|p: int| splits_at(init, id, p);
        if s.last().0 < id {
            assert(p == init.len()) by {
                if p < init.len() {
                    assert(init[p] == s[p]);
                    assert(s[p].0 < s[s.len() - 1].0);
                }
            }
            assert forall|i: int| 0 <= i < s.len() - 1 implies s[i].0 < id by {
                assert(init[i] == s[i]);
            }
            assert(splits_at(s, id, s.len() as int));
        } else {
            assert(s.last().0 != id);
            assert forall|i: int| 0 <= i < p implies s[i].0 < id by {
                assert(init[i] == s[i]);
            }
            assert forall|i: int| p <= i < s.len() implies s[i].0 > id by {
                if i < s.len() - 1 {
                    assert(init[i] == s[i]);
                }
            }
            assert(splits_at(s, id, p));
        }
    }
}

/// Binary search by id in an id-ordered sequence: `Ok` with the position of
/// `id`, or `Err` with the position where it would be inserted.
pub fn search(s: &Vec<(u32, Judgement)>, id: u32) -> (r: Result<usize, usize>)
    requires
        ids_increasing(s@),
    ensures
        match r {
            Ok(i) => i < s@.len() && s@[i as int].0 == id,
            Err(p) => splits_at(s@, id, p as int),
        },
{
    let mut lo: usize = 0;
    let mut hi: usize = s.len();
    while lo < hi
        invariant
            0 <= lo <= hi <= s@.len(),
            ids_increasing(s@),
            forall|i: int| 0 <= i < lo ==> s@[i].0 < id,
            forall|i: int| hi <= i < s@.len() ==> s@[i].0 > id,
        decreases hi - lo,
    {
        let mid: usize = lo + (hi - lo) / 2;
        let key: u32 = s[mid].0;
        if key == id {
            return Ok(mid);
        } else if key < id {
            lo = mid + 1;
        } else {
            hi = mid;
        }
    }
    Err(lo)
}

/// Inserts `(id, v)` into the id-ordered `s`, or replaces the value at `id`,
/// as `inline_insert` describes; on failure `s` is left unchanged.
pub fn insert_or_replace(s: &mut Vec<(u32, Judgement)>, id: u32, v: Judgement, max: u32) -> (r:
    Result<(), Error>)
    requires
        ids_increasing(old(s)@),
    ensures
        match inline_insert(old(s)@, id, v, max as nat) {
            Ok(t) => r == Ok::<(), Error>(()) && final(s)@ == t,
            Err(e) => r == Err::<(), Error>(e) && final(s)@ == old(s)@,
        },
{
    match search(s, id) {
        Ok(i) => {
            proof {
                lemma_index_unique(s@, id, i as int);
            }
            if s[i].1.is_sticky() {
                return Err(Error::StickyJudgement);
            }
            s.set(i, (id, v));
            Ok(())
        },
        Err(p) => {
            proof {
                lemma_split_unique(s@, id, p as int);
            }
            if s.len() >= max as usize {
                return Err(Error::TooManyJudgements);
            }
            s.insert(p, (id, v));
            Ok(())
        },
    }
}

/// Keeps only the entries whose judgement is sticky, in their order.
pub fn retain_sticky(s: &mut Vec<(u32, Judgement)>)
    requires
        ids_increasing(old(s)@),
    ensures
        final(s)@ == sticky_only(old(s)@),
        ids_increasing(final(s)@),
{
    let ghost pred = |e: (u32, Judgement)| e.1.spec_is_sticky();
    let mut kept: Vec<(u32, Judgement)> = Vec::new();
    let mut i: usize = 0;
    while i < s.len()
        invariant
            0 <= i <= s@.len(),
            ids_increasing(s@),
            pred == (|e: (u32, Judgement)| e.1.spec_is_sticky()),
            kept@ == s@.take(i as int).filter(pred),
            ids_increasing(kept@),
            forall|k: int, j: int| 0 <= k < kept@.len() && i <= j < s@.len() ==> kept@[k].0 < s@[j].0,
        decreases s@.len() - i,
    {
        let e = s[i];
        proof {
            reveal(Seq::filter);
            let t = s@.take(i + 1);
            assert(t.drop_last() =~= s@.take(i as int));
            assert(t.last() == e);
            assert(t.filter(pred) == if pred(e) {
                s@.take(i as int).filter(pred).push(e)
            } else {
                s@.take(i as int).filter(pred)
            });
        }
        if e.1.is_sticky() {
            kept.push(e);
        }
        i = i + 1;
    }
    proof {
        assert(s@.take(i as int) =~= s@);
    }
    *s = kept;
}


/// Applies `inline_insert` for each pair of `ops` in turn; a failing
/// insertion leaves the sequence as it was, as a failed call does.
pub open spec fn apply_inserts(s: Seq<(u32, Judgement)>, ops: Seq<(u32, Judgement)>, max: nat) -> Seq<
    (u32, Judgement),
>
    decreases ops.len(),
{
    if ops.len() == 0 {
        s
    } else {
        let t = apply_inserts(s, ops.drop_last(), max);
        match inline_insert(t, ops.last().0, ops.last().1, max) {
            Ok(u) => u,
            Err(_) => t,
        }
    }
}

/// Any run of insertions into a strictly increasing sequence within its
/// bound leaves it strictly increasing by id and within the bound, after
/// every call.
pub proof fn lemma_inserts_keep_order(s: Seq<(u32, Judgement)>, ops: Seq<(u32, Judgement)>, max: nat)
    requires
        ids_increasing(s),
        s.len() <= max,
    ensures
        ids_increasing(apply_inserts(s, ops, max)),
        apply_inserts(s, ops, max).len() <= max,
    decreases ops.len(),
{
    if ops.len() > 0 {
        lemma_inserts_keep_order(s, ops.drop_last(), max);
        let t = apply_inserts(s, ops.drop_last(), max);
        lemma_inline_insert_keeps_order(t, ops.last().0, ops.last().1, max);
    }
}

/// Once an id holds a sticky judgement, any later insertion at that id fails
/// with `StickyJudgement`.
pub proof fn lemma_inline_sticky_rejects(
    s: Seq<(u32, Judgement)>,
    id: u32,
    sticky: Judgement,
    v: Judgement,
    max: nat,
)
    requires
        ids_increasing(s),
        s.len() <= max,
        sticky.spec_is_sticky(),
        inline_insert(s, id, sticky, max) is Ok,
    ensures
        inline_insert(inline_insert(s, id, sticky, max)->Ok_0, id, v, max) == Err::<
            Seq<(u32, Judgement)>,
            Error,
        >(Error::StickyJudgement),
{
    let t = inline_insert(s, id, sticky, max)->Ok_0;
    lemma_inline_insert_keeps_order(s, id, sticky, max);
    if holds_id(s, id) {
        let i = index_of(s, id);
        lemma_index_unique(s, id, i);
        lemma_index_unique(t, id, i);
    } else {
        let p = insertion_point(s, id);
        lemma_split_exists(s, id);
        lemma_index_unique(t, id, p);
    }
}

/// The sticky subset of an id-ordered sequence: only sticky entries, every
/// sticky entry, still ordered by id.
pub proof fn lemma_sticky_only_exact(s: Seq<(u32, Judgement)>)
    requires
        ids_increasing(s),
    ensures
        forall|i: int| 0 <= i < sticky_only(s).len() ==> (#[trigger] sticky_only(s)[i]).1.spec_is_sticky(),
        forall|i: int| 0 <= i < s.len() && s[i].1.spec_is_sticky() ==> sticky_only(s).contains(s[i]),
        ids_increasing(sticky_only(s)),
    decreases s.len(),
{
    let pred = |e: (u32, Judgement)| e.1.spec_is_sticky();
    broadcast use Seq::lemma_filter_pred, Seq::lemma_filter_contains;

    assert forall|i: int| 0 <= i < s.len() && s[i].1.spec_is_sticky() implies sticky_only(s).contains(s[i]) by {
        assert(pred(s[i]));
    }
    if s.len() > 0 {
        let init = s.drop_last();
        lemma_sticky_only_exact(init);
        reveal(Seq::filter);
        let f = sticky_only(init);
        if pred(s.last()) {
            assert(sticky_only(s) == f.push(s.last()));
            assert forall|k: int| 0 <= k < f.len() implies f[k].0 < s.last().0 by {
                s.drop_last().lemma_filter_len(pred);
                lemma_filter_member(init, pred, k);
                let j = choose|j: int| 0 <= j < init.len() && init[j] == f[k];
                assert(s[j] == init[j]);
            }
        } else {
            assert(sticky_only(s) == f);
        }
    }
}

/// Each entry of a filtered sequence comes from the sequence.
proof fn lemma_filter_member(s: Seq<(u32, Judgement)>, pred: spec_fn((u32, Judgement)) -> bool, k: int)
    requires
        0 <= k < s.filter(pred).len(),
    ensures
        exists|j: int| 0 <= j < s.len() && s[j] == s.filter(pred)[k],
    decreases s.len(),
{
    reveal(Seq::filter);
    let f = s.drop_last().filter(pred);
    if pred(s.last()) && k == f.len() {
        assert(s[s.len() - 1] == s.filter(pred)[k]);
    } else {
        lemma_filter_member(s.drop_last(), pred, k);
        let j = choose|j: int| 0 <= j < s.drop_last().len() && s.drop_last()[j] == f[k];
        assert(s[j] == s.filter(pred)[k]);
    }
}

/// Inserts `(id, v)` for each id of `ids` in turn, stopping at the first
/// failure.
pub open spec fn insert_ids(s: Seq<(u32, Judgement)>, ids: Seq<u32>, v: Judgement, max: nat) -> Result<
    Seq<(u32, Judgement)>,
    Error,
>
    decreases ids.len(),
{
    if ids.len() == 0 {
        Ok(s)
    } else {
        match insert_ids(s, ids.drop_last(), v, max) {
            Ok(t) => inline_insert(t, ids.last(), v, max),
            Err(e) => Err(e),
        }
    }
}

/// Inserting an absent id adds one entry and that id.
proof fn lemma_insert_new_id(s: Seq<(u32, Judgement)>, id: u32, v: Judgement, max: nat)
    requires
        ids_increasing(s),
        !holds_id(s, id),
        s.len() < max,
    ensures
        inline_insert(s, id, v, max) matches Ok(t) && t.len() == s.len() + 1 && forall|x: u32|
            #[trigger] holds_id(t, x) <==> (holds_id(s, x) || x == id),
{
    lemma_split_exists(s, id);
    let p = insertion_point(s, id);
    let t = s.insert(p, (id, v));
    assert forall|x: u32| #[trigger] holds_id(t, x) <==> (holds_id(s, x) || x == id) by {
        if holds_id(t, x) {
            let i = choose|i: int| 0 <= i < t.len() && t[i].0 == x;
            if i < p {
                assert(s[i].0 == x);
            } else if i > p {
                assert(s[i - 1].0 == x);
            }
        }
        if holds_id(s, x) {
            let i = choose|i: int| 0 <= i < s.len() && s[i].0 == x;
            if i < p {
                assert(t[i].0 == x);
            } else {
                assert(t[i + 1].0 == x);
            }
        }
        if x == id {
            assert(t[p].0 == x);
        }
    }
}

/// Inserting up to `max` distinct ids, one by one, into an empty sequence
/// succeeds, and the result holds exactly those ids.
proof fn lemma_distinct_ids_fit(ids: Seq<u32>, v: Judgement, max: nat)
    requires
        ids.no_duplicates(),
        ids.len() <= max,
    ensures
        insert_ids(Seq::empty(), ids, v, max) matches Ok(t) && ids_increasing(t) && t.len()
            == ids.len() && forall|x: u32| #[trigger] holds_id(t, x) <==> ids.contains(x),
    decreases ids.len(),
{
    if ids.len() == 0 {
        assert forall|x: u32| #[trigger]
            holds_id(Seq::<(u32, Judgement)>::empty(), x) <==> ids.contains(x) by {}
    } else {
        let init = ids.drop_last();
        assert(init.no_duplicates());
        lemma_distinct_ids_fit(init, v, max);
        let t = insert_ids(Seq::empty(), init, v, max)->Ok_0;
        assert(!init.contains(ids.last())) by {
            if init.contains(ids.last()) {
                let j = choose|j: int| 0 <= j < init.len() && init[j] == ids.last();
                assert(ids[j] == ids[ids.len() - 1]);
            }
        }
        lemma_insert_new_id(t, ids.last(), v, max);
        lemma_inline_insert_keeps_order(t, ids.last(), v, max);
        let u = inline_insert(t, ids.last(), v, max)->Ok_0;
        assert forall|x: u32| #[trigger] holds_id(u, x) <==> ids.contains(x) by {
            if ids.contains(x) && x != ids.last() {
                let j = choose|j: int| 0 <= j < ids.len() && ids[j] == x;
                assert(init[j] == x);
            }
            if init.contains(x) {
                let j = choose|j: int| 0 <= j < init.len() && init[j] == x;
                assert(ids[j] == x);
            }
            if x == ids.last() {
                assert(ids[ids.len() - 1] == x);
            }
        }
    }
}

/// The bound on inline judgements is exact: of `max + 1` distinct ids
/// inserted one by one into an empty sequence, the first `max` fit and the
/// last fails with `TooManyJudgements`.
pub proof fn lemma_inline_capacity(ids: Seq<u32>, v: Judgement, max: nat)
    requires
        ids.no_duplicates(),
        ids.len() == max + 1,
    ensures
        insert_ids(Seq::empty(), ids.drop_last(), v, max) is Ok,
        insert_ids(Seq::empty(), ids, v, max) == Err::<Seq<(u32, Judgement)>, Error>(
            Error::TooManyJudgements,
        ),
{
    let init = ids.drop_last();
    assert(init.no_duplicates());
    lemma_distinct_ids_fit(init, v, max);
    let t = insert_ids(Seq::empty(), init, v, max)->Ok_0;
    assert(!holds_id(t, ids.last())) by {
        if init.contains(ids.last()) {
            let j = choose|j: int| 0 <= j < init.len() && init[j] == ids.last();
            assert(ids[j] == ids[ids.len() - 1]);
        }
    }
}

} // verus!
