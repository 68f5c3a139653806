//! The shared document: its element buffer, cached text, version gate and
//! the presence registry of the editors viewing it.
use crate::buffer::{
    cut, delete_run, insert_chars, lemma_new_keys_sorted, lemma_preserves_trans, new_keys,
    kept_in, nonce_after, preserves_elements, same_slot, splice,
};
use crate::text::{lemma_sort_keeps_sorted, rendered, render_text, visible_keys, Element, Key};
use crate::uid::{base58_encoded, encode_executor_address, NONCE_MOD};
use vstd::prelude::*;

verus! {

/// What a change of the document reports to its observers.
pub enum Event {
    /// The document was created, or replaced as a whole.
    DocumentCreated { content: String, version: u64 },
    /// A batch of edits was applied.
    DocumentUpdated { content: String, version: u64, editor: String },
    /// An address was seen for the first time.
    UserPing { addr: String, last_seen_ms: u64 },
}

/// Why a call was refused.
pub enum AppError {
    NotFound(String),
    Invalid(&'static str),
    Forbidden(&'static str),
}

/// One positional edit, against the visible text as the edits before it in
/// the same batch left it.
pub enum DocOp {
    /// Insert `content` before the `index`-th visible character.
    Insert { index: usize, content: String },
    /// Delete up to `len` visible characters from the `index`-th one on.
    Delete { index: usize, len: usize },
}

/// What a reader of the document sees.
pub struct DocumentView {
    pub content: String,
    pub version: u64,
    pub updated_ms: u64,
    pub last_editor: Option<String>,
}

/// An editor seen recently.
pub struct PresenceEntry {
    pub address: String,
    pub last_seen_ms: u64,
    /// Short status or nonce provided by the client.
    pub payload: String,
}

impl View for PresenceEntry {
    type V = (Seq<char>, u64, Seq<char>);

    open spec fn view(&self) -> (Seq<char>, u64, Seq<char>) {
        (self.address@, self.last_seen_ms, self.payload@)
    }
}

/// The state of one document replica.
pub struct SharedDocument {
    content: String,
    version: u64,
    updated_ms: u64,
    last_editor: Option<String>,
    elems: Vec<Element>,
    presence_entries: Vec<PresenceEntry>,
    id_nonce: u64,
}

/// The message of the error for empty content.
pub open spec fn empty_content_message() -> Seq<char> {
    "empty document content"@
}

/// The message of the error for a stale expected version.
pub open spec fn version_mismatch_message() -> Seq<char> {
    "version mismatch"@
}

/// The version after `v`, wrapping at 2^64.
pub open spec fn next_version(v: u64) -> u64 {
    if v == u64::MAX {
        0
    } else {
        (v + 1) as u64
    }
}

/// Visible keys and nonce after one edit stamped at `now` by `editor`.
pub open spec fn apply_op_keys(st: (Seq<Key>, u64), op: DocOp, now: u64, editor: Seq<char>) -> (
    Seq<Key>,
    u64,
) {
    match op {
        DocOp::Insert { index, content } => (
            splice(st.0, index as int, new_keys(content@, now, st.1, editor)),
            nonce_after(st.1, content@.len() as int),
        ),
        DocOp::Delete { index, len } => (cut(st.0, index as int, len as int), st.1),
    }
}

/// Visible keys and nonce after a batch of edits, applied in order.
pub open spec fn apply_ops_keys(
    st: (Seq<Key>, u64),
    ops: Seq<DocOp>,
    now: u64,
    editor: Seq<char>,
) -> (Seq<Key>, u64)
    decreases ops.len(),
{
    if ops.len() == 0 {
        st
    } else {
        apply_op_keys(apply_ops_keys(st, ops.drop_last(), now, editor), ops.last(), now, editor)
    }
}

/// The entry views of a presence list.
pub open spec fn presence_views(s: Seq<PresenceEntry>) -> Seq<(Seq<char>, u64, Seq<char>)> {
    s.map_values(|e: PresenceEntry| e@)
}

/// Whether an entry seen at `last_seen` is still active at `now`.
pub open spec fn is_active(last_seen: u64, ttl: Option<u64>, now: u64) -> bool {
    match ttl {
        Some(t) => last_seen + t >= now,
        None => true,
    }
}

/// The entries of `s` that are active at `now`, in order.
pub open spec fn active_entries(s: Seq<(Seq<char>, u64, Seq<char>)>, ttl: Option<u64>, now: u64) -> Seq<
    (Seq<char>, u64, Seq<char>),
>
    decreases s.len(),
{
    if s.len() == 0 {
        seq![]
    } else {
        let rest = active_entries(s.drop_last(), ttl, now);
        if is_active(s.last().1, ttl, now) {
            rest.push(s.last())
        } else {
            rest
        }
    }
}

/// Whether `i` is the first position of `s` with address `a`.
pub open spec fn first_with_address(s: Seq<(Seq<char>, u64, Seq<char>)>, a: Seq<char>, i: int) -> bool {
    &&& 0 <= i < s.len()
    &&& s[i].0 == a
    &&& forall|k: int| 0 <= k < i ==> #[trigger] s[k].0 != a
}

impl SharedDocument {
    /// The cached text.
    pub closed spec fn spec_content(&self) -> Seq<char> {
        self.content@
    }

    pub closed spec fn spec_version(&self) -> u64 {
        self.version
    }

    pub closed spec fn spec_updated_ms(&self) -> u64 {
        self.updated_ms
    }

    pub closed spec fn spec_last_editor(&self) -> Option<Seq<char>> {
        match self.last_editor {
            Some(e) => Some(e@),
            None => None,
        }
    }

    /// The element buffer, tombstones included.
    pub closed spec fn elements(&self) -> Seq<Element> {
        self.elems@
    }

    /// The counter that stamps the next new character.
    pub closed spec fn nonce(&self) -> u64 {
        self.id_nonce
    }

    pub closed spec fn presence(&self) -> Seq<(Seq<char>, u64, Seq<char>)> {
        presence_views(self.presence_entries@)
    }

    /// The cached text is the text of the buffer.
    pub open spec fn wf(&self) -> bool {
        self.spec_content() == rendered(self.elements())
    }

    /// The empty document, as of `now`.
    pub fn init(now: u64) -> (r: SharedDocument)
        ensures
            r.wf(),
            r.spec_content() == Seq::<char>::empty(),
            r.spec_version() == 0,
            r.spec_updated_ms() == now,
            r.spec_last_editor() is None,
            r.elements() == Seq::<Element>::empty(),
            r.nonce() == 0,
            r.presence() == Seq::<(Seq<char>, u64, Seq<char>)>::empty(),
    {
        let r = SharedDocument {
            content: String::new(),
            version: 0,
            updated_ms: now,
            last_editor: None,
            elems: Vec::new(),
            presence_entries: Vec::new(),
            id_nonce: 0,
        };
        assert(r.presence() =~= Seq::<(Seq<char>, u64, Seq<char>)>::empty());
        assert(visible_keys(r.elems@) =~= Seq::<Key>::empty());
        assert(rendered(r.elems@) =~= Seq::<char>::empty());
        r
    }
    /// Applies a batch of edits stamped at `now` by the editor whose raw
    /// identity is `executor_id`, then re-renders the text and bumps the
    /// version. When `expected_version` is given and is not the current
    /// version, nothing changes and the batch is refused.
    pub fn apply_ops(
        &mut self,
        ops: Vec<DocOp>,
        expected_version: Option<u64>,
        now: u64,
        executor_id: &[u8],
    ) -> (r: Result<(u64, Event), AppError>)
        ensures
            (expected_version matches Some(v) && v != old(self).spec_version()) ==> {
                &&& r matches Err(AppError::Invalid(m)) && m@ == version_mismatch_message()
                &&& *final(self) == *old(self)
            },
            !(expected_version matches Some(v) && v != old(self).spec_version()) ==> {
                let editor = base58_encoded(executor_id@);
                let st = apply_ops_keys(
                    (visible_keys(old(self).elements()), old(self).nonce()),
                    ops@,
                    now,
                    editor,
                );
                &&& r matches Ok((v, ev)) && v == final(self).spec_version() && (ev matches Event::DocumentUpdated { content, version, editor: e } && content@ == final(self).spec_content() && version == v && e@ == editor)
                &&& final(self).spec_version() == next_version(old(self).spec_version())
                &&& visible_keys(final(self).elements()) == st.0
                &&& final(self).nonce() == st.1
                &&& final(self).wf()
                &&& final(self).spec_updated_ms() == now
                &&& final(self).spec_last_editor() == Some(editor)
                &&& final(self).presence() == old(self).presence()
                &&& preserves_elements(old(self).elements(), final(self).elements())
            },
    {
        if let Some(ev) = expected_version {
            if ev != self.version {
                return Err(AppError::Invalid("version mismatch"));
            }
        }
        let editor_addr = encode_executor_address(executor_id);
        proof {
            assert forall|k: int| 0 <= k < self.elems@.len() implies #[trigger] kept_in(self.elems@, self.elems@[k]) by {
                assert(same_slot(self.elems@[k], self.elems@[k]));
            }
        }
        let ghost start = (visible_keys(self.elems@), self.id_nonce);
        let mut i: usize = 0;
        while i < ops.len()
            invariant
                i <= ops@.len(),
                (visible_keys(self.elems@), self.id_nonce) == apply_ops_keys(
                    start,
                    ops@.take(i as int),
                    now,
                    editor_addr@,
                ),
                self.version == old(self).version,
                self.presence_entries == old(self).presence_entries,
                preserves_elements(old(self).elems@, self.elems@),
            decreases ops.len() - i,
        {
            let ghost prev = self.elems@;
            assert(ops@.take(i + 1).drop_last() =~= ops@.take(i as int));
            match &ops[i] {
                DocOp::Insert { index, content } => {
                    insert_chars(
                        &mut self.elems,
                        &mut self.id_nonce,
                        *index,
                        content.as_str(),
                        now,
                        &editor_addr,
                    );
                },
                DocOp::Delete { index, len } => {
                    delete_run(&mut self.elems, *index, *len);
                },
            }
            proof {
                lemma_preserves_trans(old(self).elems@, prev, self.elems@);
            }
            i = i + 1;
        }
        assert(ops@.take(ops@.len() as int) =~= ops@);
        self.content = render_text(&self.elems);
        self.version = self.version.wrapping_add(1);
        self.updated_ms = now;
        self.last_editor = Some(editor_addr.clone());
        let event = Event::DocumentUpdated {
            content: self.content.clone(),
            version: self.version,
            editor: editor_addr,
        };
        Ok((self.version, event))
    }
    /// Replaces the whole document with `content`, every character stamped at
    /// `now` by the editor whose raw identity is `executor_id`. Empty content
    /// is refused and changes nothing.
    pub fn create_document(&mut self, content: String, now: u64, executor_id: &[u8]) -> (r: Result<
        (u64, Event),
        AppError,
    >)
        ensures
            content@.len() == 0 ==> {
                &&& r matches Err(AppError::Invalid(m)) && m@ == empty_content_message()
                &&& *final(self) == *old(self)
            },
            content@.len() > 0 ==> {
                let editor = base58_encoded(executor_id@);
                &&& r matches Ok((v, ev)) && v == final(self).spec_version() && (ev matches Event::DocumentCreated { content: c, version } && c@ == content@ && version == v)
                &&& final(self).spec_content() == content@
                &&& final(self).spec_version() == next_version(old(self).spec_version())
                &&& visible_keys(final(self).elements()) == new_keys(content@, now, 0, editor)
                &&& final(self).nonce() == nonce_after(0, content@.len() as int)
                &&& final(self).spec_updated_ms() == now
                &&& final(self).spec_last_editor() == Some(editor)
                &&& final(self).presence() == old(self).presence()
                &&& content@.len() <= NONCE_MOD ==> final(self).wf()
            },
    {
        if content.as_str().is_empty() {
            return Err(AppError::Invalid("empty document content"));
        }
        self.version = self.version.wrapping_add(1);
        self.content = content.clone();
        self.updated_ms = now;
        let editor_addr = encode_executor_address(executor_id);
        self.last_editor = Some(editor_addr.clone());
        self.elems.clear();
        self.id_nonce = 0;
        insert_chars(&mut self.elems, &mut self.id_nonce, 0, content.as_str(), now, &editor_addr);
        proof {
            let ks = new_keys(content@, now, 0, editor_addr@);
            assert(splice(Seq::<Key>::empty(), 0, ks) =~= ks);
            if content@.len() <= NONCE_MOD {
                lemma_new_keys_sorted(content@, now, editor_addr@);
                lemma_sort_keeps_sorted(ks);
            }
        }
        let event = Event::DocumentCreated { content, version: self.version };
        Ok((self.version, event))
    }

    /// The text, version and last-write data of the document.
    pub fn get_document(&self) -> (r: DocumentView)
        ensures
            r.content@ == self.spec_content(),
            r.version == self.spec_version(),
            r.updated_ms == self.spec_updated_ms(),
            match r.last_editor {
                Some(e) => self.spec_last_editor() == Some(e@),
                None => self.spec_last_editor() is None,
            },
    {
        let last_editor = match &self.last_editor {
            Some(e) => Some(e.clone()),
            None => None,
        };
        DocumentView {
            content: self.content.clone(),
            version: self.version,
            updated_ms: self.updated_ms,
            last_editor,
        }
    }
    /// Everything but the presence registry is the same in `self` and `o`.
    pub open spec fn same_document(&self, o: &SharedDocument) -> bool {
        &&& self.spec_content() == o.spec_content()
        &&& self.spec_version() == o.spec_version()
        &&& self.spec_updated_ms() == o.spec_updated_ms()
        &&& self.spec_last_editor() == o.spec_last_editor()
        &&& self.elements() == o.elements()
        &&& self.nonce() == o.nonce()
    }

    /// Records that `addr` was seen at `now` with `payload`: its first entry
    /// is refreshed, or a new entry is added and reported.
    pub fn ping(&mut self, addr: String, payload: String, now: u64) -> (r: Option<Event>)
        ensures
            final(self).same_document(old(self)),
            forall|i: int|
                first_with_address(old(self).presence(), addr@, i) ==> {
                    &&& final(self).presence() == old(self).presence().update(
                        i,
                        (addr@, now, payload@),
                    )
                    &&& r is None
                },
            (forall|i: int|
                0 <= i < old(self).presence().len() ==> (#[trigger] old(self).presence()[i]).0
                    != addr@) ==> {
                &&& final(self).presence() == old(self).presence().push((addr@, now, payload@))
                &&& r matches Some(Event::UserPing { addr: a, last_seen_ms }) && a@ == addr@
                    && last_seen_ms == now
            },
    {
        let mut i: usize = 0;
        while i < self.presence_entries.len()
            invariant
                i <= self.presence_entries@.len(),
                self == old(self),
                forall|k: int| 0 <= k < i ==> (#[trigger] self.presence()[k]).0 != addr@,
            decreases self.presence_entries.len() - i,
        {
            if self.presence_entries[i].address == addr {
                let ghost before = self.presence_entries@;
                self.presence_entries[i].last_seen_ms = now;
                self.presence_entries[i].payload = payload;
                proof {
                    assert(first_with_address(old(self).presence(), addr@, i as int));
                    assert(self.presence() =~= old(self).presence().update(
                        i as int,
                        (addr@, now, payload@),
                    ));
                    assert forall|j: int| first_with_address(old(self).presence(), addr@, j) implies j
                        == i by {
                        if j < i {
                            assert(old(self).presence()[j].0 != addr@);
                        } else if j > i {
                            assert(old(self).presence()[i as int].0 != addr@);
                        }
                    }
                }
                return None;
            }
            i = i + 1;
        }
        proof {
            assert forall|j: int| !first_with_address(old(self).presence(), addr@, j) by {
                if 0 <= j < self.presence().len() {
                    assert(self.presence()[j].0 != addr@);
                }
            }
        }
        self.presence_entries.push(
            PresenceEntry { address: addr.clone(), last_seen_ms: now, payload },
        );
        assert(self.presence() =~= old(self).presence().push((addr@, now, payload@)));
        Some(Event::UserPing { addr, last_seen_ms: now })
    }

    /// The entries seen within `ttl_ms` before `now`, in registry order;
    /// every entry when `ttl_ms` is `None`.
    pub fn get_active_users(&self, ttl_ms: Option<u64>, now: u64) -> (r: Vec<PresenceEntry>)
        ensures
            presence_views(r@) == active_entries(self.presence(), ttl_ms, now),
    {
        active_copies(&self.presence_entries, ttl_ms, now)
    }

    /// Drops the entries not seen within `ttl_ms` before `now`.
    pub fn purge_stale(&mut self, ttl_ms: u64, now: u64)
        ensures
            final(self).same_document(old(self)),
            final(self).presence() == active_entries(old(self).presence(), Some(ttl_ms), now),
    {
        self.presence_entries = active_copies(&self.presence_entries, Some(ttl_ms), now);
    }
}

/// Copies of the entries of `entries` that are active at `now`.
fn active_copies(entries: &Vec<PresenceEntry>, ttl_ms: Option<u64>, now: u64) -> (r: Vec<
    PresenceEntry,
>)
    ensures
        presence_views(r@) == active_entries(presence_views(entries@), ttl_ms, now),
{
    let mut out: Vec<PresenceEntry> = Vec::new();
    let mut i: usize = 0;
    while i < entries.len()
        invariant
            i <= entries@.len(),
            presence_views(out@) == active_entries(
                presence_views(entries@.take(i as int)),
                ttl_ms,
                now,
            ),
        decreases entries.len() - i,
    {
        let e = &entries[i];
        assert(presence_views(entries@.take(i + 1)).drop_last() =~= presence_views(
            entries@.take(i as int),
        ));
        let keep = match ttl_ms {
            Some(ttl) => e.last_seen_ms as u128 + ttl as u128 >= now as u128,
            None => true,
        };
        if keep {
            let c = PresenceEntry {
                address: e.address.clone(),
                last_seen_ms: e.last_seen_ms,
                payload: e.payload.clone(),
            };
            out.push(c);
            assert(presence_views(out@) =~= active_entries(
                presence_views(entries@.take(i as int)),
                ttl_ms,
                now,
            ).push(c@));
        }
        i = i + 1;
    }
    assert(entries@.take(entries@.len() as int) =~= entries@);
    out
}

} // verus!
