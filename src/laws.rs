//! What holds across calls: the buffer follows a plain string-splice model,
//! and the text depends only on which visible characters there are.
use crate::buffer::{cut, new_keys, splice};
use crate::document::{apply_op_keys, apply_ops_keys, DocOp, SharedDocument};
use crate::text::{
    insert_by_uid, lemma_sort_keeps_sorted, lemma_text_of_codes, rendered, sort_by_uid, text_of,
    uid_sorted, visible_keys, Element, Key,
};
use vstd::multiset::Multiset;
use vstd::prelude::*;

verus! {

broadcast use vstd::seq_lib::group_to_multiset_ensures, vstd::multiset::group_multiset_axioms;

/// A text after one edit, by plain splicing.
pub open spec fn edit_text(t: Seq<char>, op: DocOp) -> Seq<char> {
    match op {
        DocOp::Insert { index, content } => splice(t, index as int, content@),
        DocOp::Delete { index, len } => cut(t, index as int, len as int),
    }
}

/// A text after a batch of edits, each applied by plain splicing to what
/// the one before left.
pub open spec fn edit_text_all(t: Seq<char>, ops: Seq<DocOp>) -> Seq<char>
    decreases ops.len(),
{
    if ops.len() == 0 {
        t
    } else {
        edit_text(edit_text_all(t, ops.drop_last()), ops.last())
    }
}

/// No two keys of `m` share a uid.
pub open spec fn uids_distinct(m: Multiset<Key>) -> bool {
    forall|p: Key, q: Key|
        #[trigger] m.count(p) > 0 && #[trigger] m.count(q) > 0 && p.0 == q.0 ==> p == q
}

proof fn lemma_text_of_splice(k: Seq<Key>, i: int, nk: Seq<Key>)
    requires
        0 <= i,
    ensures
        text_of(splice(k, i, nk)) == splice(text_of(k), i, text_of(nk)),
{
    assert(text_of(splice(k, i, nk)) =~= splice(text_of(k), i, text_of(nk)));
}

proof fn lemma_text_of_cut(k: Seq<Key>, i: int, n: int)
    requires
        0 <= i,
        0 <= n,
    ensures
        text_of(cut(k, i, n)) == cut(text_of(k), i, n),
{
    assert(text_of(cut(k, i, n)) =~= cut(text_of(k), i, n));
}

/// In buffer order, the visible text after a batch of edits is the visible
/// text before it with each edit spliced in as into a plain string.
pub proof fn lemma_buffer_text_follows_edits(
    keys: Seq<Key>,
    nonce: u64,
    ops: Seq<DocOp>,
    now: u64,
    editor: Seq<char>,
)
    ensures
        text_of(apply_ops_keys((keys, nonce), ops, now, editor).0) == edit_text_all(
            text_of(keys),
            ops,
        ),
    decreases ops.len(),
{
    if ops.len() > 0 {
        lemma_buffer_text_follows_edits(keys, nonce, ops.drop_last(), now, editor);
        let st = apply_ops_keys((keys, nonce), ops.drop_last(), now, editor);
        match ops.last() {
            DocOp::Insert { index, content } => {
                let nk = new_keys(content@, now, st.1, editor);
                lemma_text_of_codes(nk, content@);
                lemma_text_of_splice(st.0, index as int, nk);
            },
            DocOp::Delete { index, len } => {
                lemma_text_of_cut(st.0, index as int, len as int);
            },
        }
    }
}

/// Where the visible characters of a document stand in uid order in its
/// buffer before and after a batch of edits, the text after the batch is
/// the text before it with each edit spliced in as into a plain string.
pub proof fn lemma_content_follows_edits(
    before: SharedDocument,
    after: SharedDocument,
    ops: Seq<DocOp>,
    now: u64,
    editor: Seq<char>,
)
    requires
        before.wf(),
        after.wf(),
        visible_keys(after.elements()) == apply_ops_keys(
            (visible_keys(before.elements()), before.nonce()),
            ops,
            now,
            editor,
        ).0,
        uid_sorted(visible_keys(before.elements())),
        uid_sorted(visible_keys(after.elements())),
    ensures
        after.spec_content() == edit_text_all(before.spec_content(), ops),
{
    lemma_sort_keeps_sorted(visible_keys(before.elements()));
    lemma_sort_keeps_sorted(visible_keys(after.elements()));
    lemma_buffer_text_follows_edits(
        visible_keys(before.elements()),
        before.nonce(),
        ops,
        now,
        editor,
    );
}

proof fn lemma_insert_multiset(s: Seq<Key>, k: Key)
    ensures
        insert_by_uid(s, k).to_multiset() == s.to_multiset().insert(k),
    decreases s.len(),
{
    if s.len() == 0 {
        assert(seq![k] =~= s.push(k));
    } else if s.last().0 <= k.0 {
    } else {
        let d = s.drop_last();
        lemma_insert_multiset(d, k);
        assert(d.push(s.last()) =~= s);
        assert(insert_by_uid(s, k).to_multiset() =~= s.to_multiset().insert(k));
    }
}

proof fn lemma_sort_multiset(s: Seq<Key>)
    ensures
        sort_by_uid(s).to_multiset() == s.to_multiset(),
    decreases s.len(),
{
    if s.len() > 0 {
        let d = s.drop_last();
        lemma_sort_multiset(d);
        lemma_insert_multiset(sort_by_uid(d), s.last());
        assert(d.push(s.last()) =~= s);
    }
}

proof fn lemma_insert_sorted(s: Seq<Key>, k: Key)
    requires
        uid_sorted(s),
    ensures
        uid_sorted(insert_by_uid(s, k)),
    decreases s.len(),
{
    if s.len() > 0 && s.last().0 > k.0 {
        let d = s.drop_last();
        let r = insert_by_uid(d, k);
        lemma_insert_sorted(d, k);
        lemma_insert_multiset(d, k);
        assert forall|i: int| 0 <= i < r.len() implies (#[trigger] r[i]).0 <= s.last().0 by {
            assert(r.contains(r[i]));
            assert(r.to_multiset().count(r[i]) > 0);
            if r[i] != k {
                assert(d.to_multiset().count(r[i]) > 0);
                assert(d.contains(r[i]));
                let j = choose|j: int| 0 <= j < d.len() && d[j] == r[i];
                assert(s[j] == d[j]);
            }
        }
        let t = r.push(s.last());
        assert forall|i: int, j: int| 0 <= i < j < t.len() implies (#[trigger] t[i]).0 <= (
        #[trigger] t[j]).0 by {
            if j == t.len() - 1 {
                assert(t[i] == r[i]);
            } else {
                assert(t[i] == r[i] && t[j] == r[j]);
            }
        }
    }
}

proof fn lemma_sort_sorted(s: Seq<Key>)
    ensures
        uid_sorted(sort_by_uid(s)),
    decreases s.len(),
{
    if s.len() > 0 {
        lemma_sort_sorted(s.drop_last());
        lemma_insert_sorted(sort_by_uid(s.drop_last()), s.last());
    }
}

proof fn lemma_sorted_unique(x: Seq<Key>, y: Seq<Key>)
    requires
        uid_sorted(x),
        uid_sorted(y),
        x.to_multiset() == y.to_multiset(),
        uids_distinct(x.to_multiset()),
    ensures
        x == y,
    decreases x.len(),
{
    assert(x.len() == x.to_multiset().len());
    assert(y.len() == y.to_multiset().len());
    if x.len() > 0 {
        let a = x.last();
        let b = y.last();
        assert(x.contains(a));
        assert(y.contains(b));
        assert(y.to_multiset().count(a) > 0);
        assert(x.to_multiset().count(b) > 0);
        assert(y.contains(a));
        assert(x.contains(b));
        let j = choose|j: int| 0 <= j < y.len() && y[j] == a;
        let i = choose|i: int| 0 <= i < x.len() && x[i] == b;
        if j < y.len() - 1 {
            assert(y[j].0 <= y[y.len() - 1].0);
        }
        if i < x.len() - 1 {
            assert(x[i].0 <= x[x.len() - 1].0);
        }
        assert(a == b);
        let xd = x.drop_last();
        let yd = y.drop_last();
        assert(xd.push(a) =~= x);
        assert(yd.push(b) =~= y);
        assert(xd.to_multiset() =~= x.to_multiset().remove(a));
        assert(yd.to_multiset() =~= y.to_multiset().remove(a));
        assert(uids_distinct(xd.to_multiset())) by {
            assert forall|p: Key, q: Key|
                #[trigger] xd.to_multiset().count(p) > 0 && #[trigger] xd.to_multiset().count(q)
                    > 0 && p.0 == q.0 implies p == q by {
                assert(x.to_multiset().count(p) > 0);
                assert(x.to_multiset().count(q) > 0);
            }
        }
        assert forall|p: int, q: int| 0 <= p < q < xd.len() implies (#[trigger] xd[p]).0 <= (
        #[trigger] xd[q]).0 by {
            assert(x[p].0 <= x[q].0);
        }
        assert forall|p: int, q: int| 0 <= p < q < yd.len() implies (#[trigger] yd[p]).0 <= (
        #[trigger] yd[q]).0 by {
            assert(y[p].0 <= y[q].0);
        }
        lemma_sorted_unique(xd, yd);
    } else {
        assert(x =~= y);
    }
}

/// Two buffers whose visible characters are the same, with no uid shared
/// between two of them, spell the same text, whatever their physical order
/// and tombstones: replicas that merged the same inserts and deletes, in any
/// order and any number of times, converge.
pub proof fn lemma_text_determined_by_visible_keys(a: Seq<Element>, b: Seq<Element>)
    requires
        visible_keys(a).to_multiset() == visible_keys(b).to_multiset(),
        uids_distinct(visible_keys(a).to_multiset()),
    ensures
        rendered(a) == rendered(b),
{
    let x = sort_by_uid(visible_keys(a));
    let y = sort_by_uid(visible_keys(b));
    lemma_sort_multiset(visible_keys(a));
    lemma_sort_multiset(visible_keys(b));
    lemma_sort_sorted(visible_keys(a));
    lemma_sort_sorted(visible_keys(b));
    lemma_sorted_unique(x, y);
}

} // verus!
