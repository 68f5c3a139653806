//! Visible keys of an element buffer, their canonical uid order, and the
//! text that they spell.
use vstd::prelude::*;

verus! {

/// One character slot. It is never removed from a buffer: deleting it sets
/// `visible` to false for good.
pub struct Element {
    pub uid: u128,
    pub ch: u32,
    pub visible: bool,
    pub created_ms: u64,
    pub editor: String,
}

/// A visible character as the text sees it: its uid and its code.
pub type Key = (u128, u32);

/// The keys of the visible elements of `s`, in buffer order.
pub open spec fn visible_keys(s: Seq<Element>) -> Seq<Key>
    decreases s.len(),
{
    if s.len() == 0 {
        seq![]
    } else {
        let rest = visible_keys(s.drop_last());
        if s.last().visible {
            rest.push((s.last().uid, s.last().ch))
        } else {
            rest
        }
    }
}

/// `k` placed into `s` after every key whose uid is not above its own.
pub open spec fn insert_by_uid(s: Seq<Key>, k: Key) -> Seq<Key>
    decreases s.len(),
{
    if s.len() == 0 {
        seq![k]
    } else if s.last().0 <= k.0 {
        s.push(k)
    } else {
        insert_by_uid(s.drop_last(), k).push(s.last())
    }
}

/// The keys of `s` in ascending uid order; keys with equal uids keep their
/// order in `s`.
pub open spec fn sort_by_uid(s: Seq<Key>) -> Seq<Key>
    decreases s.len(),
{
    if s.len() == 0 {
        seq![]
    } else {
        insert_by_uid(sort_by_uid(s.drop_last()), s.last())
    }
}

/// Whether `c` is a Unicode scalar value.
pub open spec fn is_scalar(c: u32) -> bool {
    c < 0xD800 || (0xE000 <= c && c <= 0x10FFFF)
}

/// The scalar value of a character.
pub open spec fn code_of(x: char) -> u32 {
    x as u32
}

/// The character of a stored code: the scalar value itself, or U+FFFD when
/// the code is not one.
pub open spec fn char_of(c: u32) -> char {
    if is_scalar(c) {
        choose|x: char| #[trigger] code_of(x) == c
    } else {
        '\u{FFFD}'
    }
}

/// The text spelt by a sequence of keys.
pub open spec fn text_of(keys: Seq<Key>) -> Seq<char> {
    keys.map_values(|k: Key| char_of(k.1))
}

/// The text of a buffer: its visible characters ordered by uid.
pub open spec fn rendered(s: Seq<Element>) -> Seq<char> {
    text_of(sort_by_uid(visible_keys(s)))
}

/// Relies on `char::from_u32`: the character whose scalar value is `c`, or
/// `None` when `c` is not a scalar value.
#[verifier::external_body]
fn char_from_code(c: u32) -> (r: Option<char>)
    ensures
        r is Some <==> is_scalar(c),
        r matches Some(x) ==> x as u32 == c,
{
    char::from_u32(c)
}

/// Relies on `String::push`: appends one character.
#[verifier::external_body]
fn push_char(s: &mut String, c: char)
    ensures
        final(s)@ == old(s)@.push(c),
{
    s.push(c)
}

/// The character of a stored code, U+FFFD when it is no scalar value.
pub fn code_to_char(c: u32) -> (r: char)
    ensures
        r == char_of(c),
{
    match char_from_code(c) {
        Some(x) => {
            proof {
                lemma_char_code(x);
            }
            x
        },
        None => '\u{FFFD}',
    }
}

proof fn lemma_char_code(c: char)
    ensures
        is_scalar(c as u32),
        char_of(c as u32) == c,
{
    assert(code_of(c) == c as u32);
}

proof fn lemma_insert_at(s: Seq<Key>, k: Key, p: int)
    requires
        0 <= p <= s.len(),
        forall|j: int| p <= j < s.len() ==> s[j].0 > k.0,
        p == 0 || s[p - 1].0 <= k.0,
    ensures
        insert_by_uid(s, k) == s.insert(p, k),
    decreases s.len(),
{
    if s.len() == 0 {
        assert(s.insert(p, k) =~= seq![k]);
    } else if s.len() == p {
        assert(s.insert(p, k) =~= s.push(k));
    } else {
        lemma_insert_at(s.drop_last(), k, p);
        assert(s.drop_last().insert(p, k).push(s.last()) =~= s.insert(p, k));
    }
}

/// Collects the keys of the visible elements of `elems` in uid order.
fn sorted_visible_keys(elems: &Vec<Element>) -> (r: Vec<Key>)
    ensures
        r@ == sort_by_uid(visible_keys(elems@)),
{
    let mut sorted: Vec<Key> = Vec::new();
    let mut i: usize = 0;
    while i < elems.len()
        invariant
            i <= elems@.len(),
            sorted@ == sort_by_uid(visible_keys(elems@.take(i as int))),
        decreases elems.len() - i,
    {
        assert(elems@.take(i + 1).drop_last() =~= elems@.take(i as int));
        let e = &elems[i];
        if e.visible {
            let k: Key = (e.uid, e.ch);
            let mut p: usize = sorted.len();
            while p > 0 && sorted[p - 1].0 > k.0
                invariant
                    p <= sorted@.len(),
                    forall|j: int| p <= j < sorted@.len() ==> sorted@[j].0 > k.0,
                decreases p,
            {
                p = p - 1;
            }
            proof {
                lemma_insert_at(sorted@, k, p as int);
                let v = visible_keys(elems@.take(i as int));
                assert(visible_keys(elems@.take(i + 1)) == v.push(k));
                assert(v.push(k).drop_last() =~= v);
            }
            sorted.insert(p, k);
        }
        i = i + 1;
    }
    assert(elems@.take(elems@.len() as int) =~= elems@);
    sorted
}

/// The text of a buffer: its visible characters in uid order.
pub fn render_text(elems: &Vec<Element>) -> (r: String)
    ensures
        r@ == rendered(elems@),
{
    let keys = sorted_visible_keys(elems);
    let mut out = String::new();
    let mut j: usize = 0;
    while j < keys.len()
        invariant
            j <= keys@.len(),
            keys@ == sort_by_uid(visible_keys(elems@)),
            out@ == text_of(keys@.take(j as int)),
        decreases keys.len() - j,
    {
        let c = code_to_char(keys[j].1);
        push_char(&mut out, c);
        j = j + 1;
        assert(text_of(keys@.take(j as int)) =~= text_of(keys@.take(j - 1)).push(c));
    }
    assert(keys@.take(keys@.len() as int) =~= keys@);
    out
}

/// Whether the uids of `s` never decrease.
pub open spec fn uid_sorted(s: Seq<Key>) -> bool {
    forall|i: int, j: int| 0 <= i < j < s.len() ==> (#[trigger] s[i]).0 <= (#[trigger] s[j]).0
}

/// Keys already in uid order are left as they are by the sort.
pub proof fn lemma_sort_keeps_sorted(s: Seq<Key>)
    requires
        uid_sorted(s),
    ensures
        sort_by_uid(s) == s,
    decreases s.len(),
{
    if s.len() > 0 {
        let d = s.drop_last();
        assert(uid_sorted(d));
        lemma_sort_keeps_sorted(d);
        if d.len() == 0 {
            assert(seq![s.last()] =~= s);
        } else {
            assert(d.last() == s[s.len() - 2]);
            assert(d.push(s.last()) =~= s);
        }
    }
}

/// The text of the keys of characters is those characters.
pub proof fn lemma_text_of_codes(keys: Seq<Key>, cs: Seq<char>)
    requires
        keys.len() == cs.len(),
        forall|j: int| 0 <= j < keys.len() ==> (#[trigger] keys[j]).1 == cs[j] as u32,
    ensures
        text_of(keys) == cs,
{
    assert forall|j: int| 0 <= j < keys.len() implies text_of(keys)[j] == cs[j] by {
        lemma_char_code(cs[j]);
        assert(keys[j].1 == cs[j] as u32);
    }
    assert(text_of(keys) =~= cs);
}

} // verus!
