//! Positional edits on an element buffer: inserting characters before a
//! visible index and tombstoning a run of visible characters.
use crate::text::{lemma_text_of_codes, text_of, uid_sorted, visible_keys, Element, Key};
use crate::uid::{
    editor_fingerprint, make_uid, make_uid_spec, uid_spec, FINGERPRINT_MOD, NONCE_MOD,
};
use vstd::prelude::*;

verus! {

/// `new` put into `t` before position `index`, or at its end when `index`
/// is past it.
pub open spec fn splice<A>(t: Seq<A>, index: int, new: Seq<A>) -> Seq<A> {
    let i = if index < t.len() {
        index
    } else {
        t.len() as int
    };
    t.take(i) + new + t.skip(i)
}

/// `t` without the run of `len` items that starts at `index`, cut short at
/// the end of `t`.
pub open spec fn cut<A>(t: Seq<A>, index: int, len: int) -> Seq<A> {
    let a = if index < t.len() {
        index
    } else {
        t.len() as int
    };
    let b = if index + len < t.len() {
        index + len
    } else {
        t.len() as int
    };
    t.take(a) + t.skip(b)
}

/// `n` is `o` or `o` tombstoned.
pub open spec fn same_slot(n: Element, o: Element) -> bool {
    &&& n.uid == o.uid
    &&& n.ch == o.ch
    &&& (!o.visible ==> !n.visible)
}

/// `new` holds `o`, or `o` tombstoned.
pub open spec fn kept_in(new: Seq<Element>, o: Element) -> bool {
    exists|j: int| 0 <= j < new.len() && same_slot(#[trigger] new[j], o)
}

/// Every element of `old` is still in `new`, with its uid and character,
/// and still tombstoned if it was.
pub open spec fn preserves_elements(old: Seq<Element>, new: Seq<Element>) -> bool {
    forall|i: int| 0 <= i < old.len() ==> #[trigger] kept_in(new, old[i])
}

/// Keeping elements is transitive.
pub proof fn lemma_preserves_trans(a: Seq<Element>, b: Seq<Element>, c: Seq<Element>)
    requires
        preserves_elements(a, b),
        preserves_elements(b, c),
    ensures
        preserves_elements(a, c),
{
    assert forall|i: int| 0 <= i < a.len() implies #[trigger] kept_in(c, a[i]) by {
        assert(kept_in(b, a[i]));
        let j = choose|j: int| 0 <= j < b.len() && same_slot(#[trigger] b[j], a[i]);
        assert(kept_in(c, b[j]));
        let k = choose|k: int| 0 <= k < c.len() && same_slot(#[trigger] c[k], b[j]);
        assert(same_slot(c[k], a[i]));
    }
}

proof fn lemma_preserves_splice(old: Seq<Element>, fin: Seq<Element>, pos: int, n: int)
    requires
        0 <= pos <= old.len(),
        0 <= n,
        fin.len() == old.len() + n,
        fin.take(pos) == old.take(pos),
        fin.skip(pos + n) == old.skip(pos),
    ensures
        preserves_elements(old, fin),
{
    assert forall|i: int| 0 <= i < old.len() implies #[trigger] kept_in(fin, old[i]) by {
        if i < pos {
            assert(pos <= fin.len());
            assert(fin.take(pos)[i] == fin[i]);
            assert(old.take(pos)[i] == old[i]);
            assert(fin[i] == old[i]);
            assert(same_slot(fin[i], old[i]));
        } else {
            assert(fin.skip(pos + n)[i - pos] == old.skip(pos)[i - pos]);
            assert(fin.skip(pos + n)[i - pos] == fin[i + n]);
            assert(old.skip(pos)[i - pos] == old[i]);
            assert(fin[i + n] == old[i]);
            assert(same_slot(fin[i + n], old[i]));
        }
    }
}

/// A nonce advanced `k` times, wrapping at 2^64.
pub open spec fn nonce_after(nonce: u64, k: int) -> u64 {
    ((nonce + k) % 0x1_0000_0000_0000_0000) as u64
}

/// The keys of the characters `cs` stamped at `now` by `editor`, the first
/// with `nonce` and each next one with the nonce advanced once more.
pub open spec fn new_keys(cs: Seq<char>, now: u64, nonce: u64, editor: Seq<char>) -> Seq<Key> {
    Seq::new(cs.len(), |j: int| (make_uid_spec(now, nonce_after(nonce, j), editor), cs[j] as u32))
}

/// Visible keys of a concatenation are the concatenation of visible keys.
pub proof fn lemma_visible_keys_concat(a: Seq<Element>, b: Seq<Element>)
    ensures
        visible_keys(a + b) == visible_keys(a) + visible_keys(b),
    decreases b.len(),
{
    if b.len() == 0 {
        assert(a + b =~= a);
        assert(visible_keys(a) + visible_keys(b) =~= visible_keys(a));
    } else {
        lemma_visible_keys_concat(a, b.drop_last());
        assert((a + b).drop_last() =~= a + b.drop_last());
        assert((a + b).last() == b.last());
        if b.last().visible {
            assert(visible_keys(a) + visible_keys(b) =~= (visible_keys(a) + visible_keys(
                b.drop_last(),
            )).push((b.last().uid, b.last().ch)));
        }
    }
}

proof fn lemma_split_visible(s: Seq<Element>, i: int)
    requires
        0 <= i <= s.len(),
    ensures
        visible_keys(s) == visible_keys(s.take(i)) + visible_keys(s.skip(i)),
{
    assert(s =~= s.take(i) + s.skip(i));
    lemma_visible_keys_concat(s.take(i), s.skip(i));
}

/// The `j` elements from `pos` on are visible and carry the first `j` keys.
spec fn stamped(m: Seq<Element>, pos: int, keys: Seq<Key>, j: int) -> bool {
    forall|t: int|
        0 <= t < j ==> (#[trigger] m[pos + t]).visible && m[pos + t].uid == keys[t].0 && m[pos + t].ch == keys[t].1
}

proof fn lemma_all_visible(m: Seq<Element>, ks: Seq<Key>)
    requires
        m.len() == ks.len(),
        forall|t: int| 0 <= t < m.len() ==> (#[trigger] m[t]).visible && m[t].uid == ks[t].0 && m[t].ch == ks[t].1,
    ensures
        visible_keys(m) == ks,
    decreases m.len(),
{
    if m.len() == 0 {
        assert(ks =~= seq![]);
    } else {
        lemma_all_visible(m.drop_last(), ks.drop_last());
        assert(m.last().visible);
        assert(ks.drop_last().push(ks.last()) =~= ks);
    }
}

/// Inserts the characters of `content` before the `index`-th visible
/// element, or after the last element when there are fewer than `index`
/// visible ones, each stamped with a fresh uid.
pub fn insert_chars(
    elems: &mut Vec<Element>,
    nonce: &mut u64,
    index: usize,
    content: &str,
    now: u64,
    editor: &String,
)
    ensures
        visible_keys(final(elems)@) == splice(
            visible_keys(old(elems)@),
            index as int,
            new_keys(content@, now, *old(nonce), editor@),
        ),
        *final(nonce) == nonce_after(*old(nonce), content@.len() as int),
        preserves_elements(old(elems)@, final(elems)@),
{
    let ghost old_elems = elems@;
    let ghost old_nonce = *nonce;
    let ghost keys = new_keys(content@, now, old_nonce, editor@);
    let mut i: usize = 0;
    let mut cnt: usize = 0;
    while i < elems.len() && cnt < index
        invariant
            elems@ == old_elems,
            i <= elems@.len(),
            cnt <= index,
            cnt == visible_keys(elems@.take(i as int)).len(),
        decreases elems.len() - i,
    {
        assert(elems@.take(i + 1).drop_last() =~= elems@.take(i as int));
        if elems[i].visible {
            cnt = cnt + 1;
        }
        i = i + 1;
    }
    let pos = i;
    proof {
        lemma_split_visible(old_elems, pos as int);
        if cnt < index {
            assert(old_elems.take(pos as int) =~= old_elems);
        }
    }
    let n = content.unicode_len();
    let mut j: usize = 0;
    while j < n
        invariant
            n == content@.len(),
            j <= n,
            pos <= old_elems.len(),
            *nonce == nonce_after(old_nonce, j as int),
            elems@.len() == old_elems.len() + j,
            elems@.take(pos as int) == old_elems.take(pos as int),
            elems@.skip(pos + j) == old_elems.skip(pos as int),
            keys == new_keys(content@, now, old_nonce, editor@),
            stamped(elems@, pos as int, keys, j as int),
        decreases n - j,
    {
        let c = content.get_char(j);
        let uid = make_uid(now, *nonce, editor.as_str());
        *nonce = nonce.wrapping_add(1);
        let ghost before = elems@;
        let ghost k: Key = (uid, c as u32);
        assert(k == keys[j as int]);
        assert(*nonce == nonce_after(old_nonce, j + 1));
        let cur_len = elems.len();
        assert(pos + j <= cur_len);
        elems.insert(
            pos + j,
            Element { uid, ch: c as u32, visible: true, created_ms: now, editor: editor.clone() },
        );
        j = j + 1;
        proof {
            assert(elems@.take(pos as int) =~= before.take(pos as int));
            assert(elems@.skip(pos + j) =~= before.skip(pos + j - 1));
            assert forall|t: int| 0 <= t < j implies (#[trigger] elems@[pos + t]).visible && elems@[pos + t].uid == keys[t].0 && elems@[pos + t].ch == keys[t].1 by {
                if t < j - 1 {
                    assert(before[pos + t].visible && before[pos + t].uid == keys[t].0 && before[pos + t].ch == keys[t].1);
                }
                if t < j - 1 {
                    assert(elems@[pos + t] == before[pos + t]);
                } else {
                    assert(t == j - 1);
                    assert(elems@[pos + t] == elems@[pos + (j - 1)]);
                    assert(elems@[pos + t].uid == k.0);
                    assert(elems@[pos + t].ch == k.1);
                    assert(elems@[pos + t].visible);
                }
            }
        }
    }
    proof {
        let fin = elems@;
        let mid = fin.subrange(pos as int, pos + n);
        assert(fin =~= fin.take(pos as int) + mid + fin.skip(pos + n));
        lemma_visible_keys_concat(fin.take(pos as int), mid);
        lemma_visible_keys_concat(fin.take(pos as int) + mid, fin.skip(pos + n));
        assert forall|t: int| 0 <= t < mid.len() implies (#[trigger] mid[t]).visible && mid[t].uid == keys[t].0 && mid[t].ch == keys[t].1 by {
            assert(mid[t] == fin[pos + t]);
            assert(fin[pos + t].visible && fin[pos + t].uid == keys[t].0 && fin[pos + t].ch == keys[t].1);
        }
        lemma_all_visible(mid, keys);
        lemma_preserves_splice(old_elems, fin, pos as int, n as int);
        let v = visible_keys(old_elems);
        assert(visible_keys(old_elems.take(pos as int)) =~= v.take(cnt as int));
        assert(visible_keys(old_elems.skip(pos as int)) =~= v.skip(cnt as int));
    }
}

/// Tombstones up to `len` visible elements, starting at the `index`-th
/// visible one; elements already tombstoned are skipped and not counted.
pub fn delete_run(elems: &mut Vec<Element>, index: usize, len: usize)
    ensures
        visible_keys(final(elems)@) == cut(visible_keys(old(elems)@), index as int, len as int),
        final(elems)@.len() == old(elems)@.len(),
        forall|k: int|
            0 <= k < final(elems)@.len() ==> {
                &&& (#[trigger] final(elems)@[k]).uid == old(elems)@[k].uid
                &&& final(elems)@[k].ch == old(elems)@[k].ch
                &&& (final(elems)@[k].visible ==> old(elems)@[k].visible)
            },
        preserves_elements(old(elems)@, final(elems)@),
{
    let ghost old_elems = elems@;
    let ghost t = visible_keys(old_elems);
    let ghost end = index + len;
    let mut remaining: usize = len;
    let mut cnt: usize = 0;
    let mut i: usize = 0;
    while i < elems.len() && remaining > 0
        invariant
            t == visible_keys(old_elems),
            end == index + len,
            elems@.len() == old_elems.len(),
            i <= elems@.len(),
            cnt <= i,
            elems@.skip(i as int) == old_elems.skip(i as int),
            cnt == visible_keys(old_elems.take(i as int)).len(),
            visible_keys(old_elems.take(i as int)) == t.take(cnt as int),
            cnt <= t.len(),
            visible_keys(elems@.take(i as int)) == t.take(
                if cnt < index { cnt as int } else { index as int },
            ) + t.subrange(if cnt < end { cnt as int } else { end }, cnt as int),
            remaining == len - ((if cnt < end { cnt as int } else { end }) - (if cnt < index {
                cnt as int
            } else {
                index as int
            })),
            forall|k: int|
                0 <= k < elems@.len() ==> {
                    &&& (#[trigger] elems@[k]).uid == old_elems[k].uid
                    &&& elems@[k].ch == old_elems[k].ch
                    &&& (elems@[k].visible ==> old_elems[k].visible)
                },
        decreases elems.len() - i,
    {
        let ghost before = elems@;
        let ghost i0 = i as int;
        proof {
            lemma_split_visible(old_elems, i as int);
            lemma_split_visible(old_elems, i + 1);
            assert(old_elems.take(i + 1).drop_last() =~= old_elems.take(i as int));
            assert(before.take(i + 1).drop_last() =~= before.take(i as int));
            assert(before[i as int] == old_elems.skip(i as int)[0]);
        }
        if elems[i].visible {
            proof {
                let k = (old_elems[i as int].uid, old_elems[i as int].ch);
                assert(visible_keys(old_elems.take(i + 1)) == t.take(cnt as int).push(k));
                assert(t.take(cnt as int).push(k) =~= t.take(cnt + 1));
            }
            if cnt >= index {
                elems[i].visible = false;
                remaining = remaining - 1;
                proof {
                    assert(elems@.take(i as int) =~= before.take(i as int));
                    assert(elems@.take(i + 1).drop_last() =~= before.take(i as int));
                }
            } else {
                proof {
                    let k = (old_elems[i as int].uid, old_elems[i as int].ch);
                    assert(t[cnt as int] == k);
                    assert(t.take(cnt as int).push(k) =~= t.take(cnt + 1));
                    assert(t.subrange(cnt + 1, cnt + 1) =~= t.subrange(cnt as int, cnt as int));
                }
            }
            cnt = cnt + 1;
        }
        i = i + 1;
        proof {
            assert forall|k: int| i0 < k < elems@.len() implies elems@[k] == old_elems[k] by {
                assert(before.skip(i0)[k - i0] == old_elems.skip(i0)[k - i0]);
            }
            assert(elems@.skip(i as int) =~= old_elems.skip(i as int));
        }
    }
    proof {
        lemma_split_visible(elems@, i as int);
        lemma_split_visible(old_elems, i as int);
        if i == elems@.len() {
            assert(elems@.take(i as int) =~= elems@);
            assert(old_elems.take(i as int) =~= old_elems);
        }
        assert(visible_keys(elems@) =~= cut(t, index as int, len as int));
        assert forall|k: int| 0 <= k < old_elems.len() implies #[trigger] kept_in(elems@, old_elems[k]) by {
            assert(same_slot(elems@[k], old_elems[k]));
        }
    }
}

/// Fewer than 2^16 characters stamped from nonce zero at one instant come
/// out in uid order.
pub proof fn lemma_new_keys_sorted(cs: Seq<char>, now: u64, editor: Seq<char>)
    requires
        cs.len() <= NONCE_MOD,
    ensures
        uid_sorted(new_keys(cs, now, 0, editor)),
        text_of(new_keys(cs, now, 0, editor)) == cs,
{
    let ks = new_keys(cs, now, 0, editor);
    let fp = editor_fingerprint(editor) % (FINGERPRINT_MOD as nat);
    assert forall|i: int, j: int| 0 <= i < j < ks.len() implies (#[trigger] ks[i]).0 <= (
    #[trigger] ks[j]).0 by {
        assert(nonce_after(0, i) == i);
        assert(nonce_after(0, j) == j);
        assert(i % (NONCE_MOD as int) == i);
        assert(j % (NONCE_MOD as int) == j);
        assert(fp < FINGERPRINT_MOD);
        let ui = uid_spec(now, i as u64, editor_fingerprint(editor));
        let uj = uid_spec(now, j as u64, editor_fingerprint(editor));
        assert(ui == now as nat * 0x1_0000_0000_0000_0000 + i * 0x1_0000_0000_0000 + fp);
        assert(uj == now as nat * 0x1_0000_0000_0000_0000 + j * 0x1_0000_0000_0000 + fp);
        assert(ui < uj);
        assert(uj < 0x1_0000_0000_0000_0000_0000_0000_0000_0000);
    }
    lemma_text_of_codes(ks, cs);
}

} // verus!
