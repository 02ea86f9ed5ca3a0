use vstd::prelude::*;
use vstd::string::StringExecFns;
use crate::events::decimal_spec;

verus! {

/// Lowercase hexadecimal digit of a value below 16.
pub open spec fn hex_digit(n: nat) -> char {
    if n < 10 {
        (48 + n) as char
    } else {
        (87 + n) as char
    }
}

/// Lowercase hexadecimal text of a byte string: two digits per byte, the
/// high nibble first.
pub open spec fn hex_spec(b: Seq<u8>) -> Seq<char>
    decreases b.len(),
{
    if b.len() == 0 {
        Seq::<char>::empty()
    } else {
        hex_spec(b.drop_last()) + seq![hex_digit((b.last() / 16) as nat), hex_digit((b.last() % 16) as nat)]
    }
}

/// Hexadecimal text is two characters per byte.
pub proof fn lemma_hex_len(b: Seq<u8>)
    ensures
        hex_spec(b).len() == 2 * b.len(),
    decreases b.len(),
{
    if b.len() > 0 {
        lemma_hex_len(b.drop_last());
    }
}

/// The three texts one after the other.
pub(crate) fn framed(prefix: &str, text: &str, suffix: &str) -> (s: String)
    ensures
        s@ == prefix@ + text@ + suffix@,
{
    let mut s = String::from_str(prefix);
    s.append(text);
    s.append(suffix);
    s
}

/// Formats a number with `ToString::to_string`, which for an integer is
/// its decimal text.
#[verifier::external_body]
pub(crate) fn decimal_text(n: u64) -> (s: String)
    ensures
        s@ == decimal_spec(n as nat),
{
    n.to_string()
}

/// The message naming a block by its hexadecimal hash between two texts.
pub(crate) fn hash_message(prefix: &str, hash: &[u8; 32], suffix: &str) -> (s: String)
    ensures
        s@ == prefix@ + hex_spec(hash@) + suffix@,
{
    let hex = hex_encode(hash);
    framed(prefix, hex.as_str(), suffix)
}

/// Calls `hex::encode`. The contract claims what its documentation says:
/// lowercase hexadecimal, two characters per byte, high nibble first.
#[verifier::external_body]
pub(crate) fn hex_encode(bytes: &[u8]) -> (s: String)
    ensures
        s@ == hex_spec(bytes@),
{
    hex::encode(bytes)
}

/// Calls `rand::RngCore::fill_bytes` on the thread-local generator to draw
/// `n` bytes. Only the length is claimed: the bytes are random.
#[verifier::external_body]
fn random_bytes(n: usize) -> (v: Vec<u8>)
    ensures
        v@.len() == n,
{
    let mut v = vec![0u8; n];
    rand::RngCore::fill_bytes(&mut rand::thread_rng(), &mut v);
    v
}

#[verifier::external_type_specification]
#[verifier::external_body]
pub struct ExInstant(std::time::Instant);

/// Calls `std::time::Instant::now`; nothing is claimed of the value.
#[verifier::external_body]
fn instant_now() -> std::time::Instant {
    std::time::Instant::now()
}

/// A trace identifier: the hex text of 16 bytes.
pub open spec fn is_trace_id(s: Seq<char>) -> bool {
    exists|b: Seq<u8>| b.len() == 16 && s == hex_spec(b)
}

/// A span identifier: the hex text of 8 bytes.
pub open spec fn is_span_id(s: Seq<char>) -> bool {
    exists|b: Seq<u8>| b.len() == 8 && s == hex_spec(b)
}

/// A new trace identifier: 16 random bytes in hex.
fn generate_trace_id() -> (s: String)
    ensures
        is_trace_id(s@),
        s@.len() == 32,
{
    let b = random_bytes(16);
    let s = hex_encode(b.as_slice());
    proof {
        lemma_hex_len(b@);
        assert(b@.len() == 16 && s@ == hex_spec(b@));
    }
    s
}

/// A new span identifier: 8 random bytes in hex.
fn generate_span_id() -> (s: String)
    ensures
        is_span_id(s@),
        s@.len() == 16,
{
    let b = random_bytes(8);
    let s = hex_encode(b.as_slice());
    proof {
        lemma_hex_len(b@);
        assert(b@.len() == 8 && s@ == hex_spec(b@));
    }
    s
}

/// Outcome recorded on a span.
#[derive(Clone, Copy, Debug)]
pub enum TraceStatus {
    Success,
    Error,
}

/// A trace span. Spans carry no data here: recording is a no-op.
pub struct TraceSpan;

/// Guard of an entered span.
pub struct TraceGuard;

impl TraceSpan {
    /// Enter the span.
    pub fn enter(&self) -> TraceGuard {
        TraceGuard
    }

    /// Record the span's outcome; nothing is kept.
    pub fn set_status(&self, _status: TraceStatus) {
    }

    /// Record an attribute; nothing is kept.
    pub fn set_attribute(&self, _key: &str, _value: &str) {
    }
}

/// Keys of a list of entries are pairwise different.
pub open spec fn keys_distinct<V>(v: Seq<(String, V)>) -> bool {
    forall|i: int, j: int| 0 <= i < j < v.len() ==> (#[trigger] v[i]).0@ != (#[trigger] v[j]).0@
}

/// The value stored under key `k`, if any.
pub open spec fn entry_of<V>(v: Seq<(String, V)>, k: Seq<char>) -> Option<V> {
    if exists|i: int| 0 <= i < v.len() && (#[trigger] v[i]).0@ == k {
        Some(v[choose|i: int| 0 <= i < v.len() && (#[trigger] v[i]).0@ == k].1)
    } else {
        None
    }
}

/// Position of key `k` in `v`.
fn find_entry<V>(v: &Vec<(String, V)>, k: &String) -> (r: Option<usize>)
    ensures
        match r {
            Some(i) => i < v@.len() && v@[i as int].0@ == k@,
            None => forall|i: int| 0 <= i < v@.len() ==> (#[trigger] v@[i]).0@ != k@,
        },
{
    let mut i: usize = 0;
    while i < v.len()
        invariant
            i <= v@.len(),
            forall|j: int| 0 <= j < i ==> (#[trigger] v@[j]).0@ != k@,
        decreases v@.len() - i,
    {
        if v[i].0 == *k {
            return Some(i);
        }
        i = i + 1;
    }
    None
}

/// With distinct keys, the entry at `i` is the value stored under its key.
proof fn lemma_entry_at<V>(v: Seq<(String, V)>, i: int)
    requires
        keys_distinct(v),
        0 <= i < v.len(),
    ensures
        entry_of(v, v[i].0@) == Some(v[i].1),
{
    let j = choose|j: int| 0 <= j < v.len() && (#[trigger] v[j]).0@ == v[i].0@;
    if j != i {
        if j < i {
            assert(v[j].0@ != v[i].0@);
        } else {
            assert(v[i].0@ != v[j].0@);
        }
    }
}

/// Store `val` under `k`: replace the value of an existing key in place, or
/// append a new entry.
pub(crate) fn put_entry<V>(v: &mut Vec<(String, V)>, k: String, val: V)
    requires
        keys_distinct(old(v)@),
    ensures
        keys_distinct(final(v)@),
        forall|key: Seq<char>| #[trigger]
            entry_of(final(v)@, key) == if key == k@ {
                Some(val)
            } else {
                entry_of(old(v)@, key)
            },
{
    let ghost ov = v@;
    let ghost kv = k@;
    match find_entry(v, &k) {
        Some(i) => {
            v.set(i, (k, val));
            proof {
                let nv = v@;
                assert(nv =~= ov.update(i as int, (nv[i as int].0, val)));
                assert(keys_distinct(nv)) by {
                    assert forall|a: int, b: int| 0 <= a < b < nv.len() implies (#[trigger] nv[a]).0@ != (#[trigger] nv[b]).0@ by {
                        if a != i && b != i {
                            assert(nv[a] == ov[a] && nv[b] == ov[b]);
                        } else if a == i {
                            assert(nv[b] == ov[b]);
                            assert(ov[a].0@ != ov[b].0@);
                        } else {
                            assert(nv[a] == ov[a]);
                            assert(ov[a].0@ != ov[b].0@);
                        }
                    }
                }
                assert forall|key: Seq<char>| #[trigger]
                    entry_of(nv, key) == if key == kv {
                        Some(val)
                    } else {
                        entry_of(ov, key)
                    } by {
                    if key == kv {
                        lemma_entry_at(nv, i as int);
                    } else {
                        if exists|j: int| 0 <= j < ov.len() && (#[trigger] ov[j]).0@ == key {
                            let j = choose|j: int| 0 <= j < ov.len() && (#[trigger] ov[j]).0@ == key;
                            assert(j != i);
                            assert(nv[j] == ov[j]);
                            lemma_entry_at(ov, j);
                            lemma_entry_at(nv, j);
                        } else {
                            if exists|j: int| 0 <= j < nv.len() && (#[trigger] nv[j]).0@ == key {
                                let j = choose|j: int| 0 <= j < nv.len() && (#[trigger] nv[j]).0@ == key;
                                assert(j != i);
                                assert(ov[j] == nv[j]);
                            }
                        }
                    }
                }
            }
        },
        None => {
            v.push((k, val));
            proof {
                let nv = v@;
                assert(nv =~= ov.push((nv[ov.len() as int].0, val)));
                assert(keys_distinct(nv)) by {
                    assert forall|a: int, b: int| 0 <= a < b < nv.len() implies (#[trigger] nv[a]).0@ != (#[trigger] nv[b]).0@ by {
                        if b == ov.len() {
                            assert(nv[a] == ov[a]);
                        } else {
                            assert(nv[a] == ov[a] && nv[b] == ov[b]);
                        }
                    }
                }
                assert forall|key: Seq<char>| #[trigger]
                    entry_of(nv, key) == if key == kv {
                        Some(val)
                    } else {
                        entry_of(ov, key)
                    } by {
                    if key == kv {
                        lemma_entry_at(nv, ov.len() as int);
                    } else {
                        if exists|j: int| 0 <= j < ov.len() && (#[trigger] ov[j]).0@ == key {
                            let j = choose|j: int| 0 <= j < ov.len() && (#[trigger] ov[j]).0@ == key;
                            assert(nv[j] == ov[j]);
                            lemma_entry_at(ov, j);
                            lemma_entry_at(nv, j);
                        } else {
                            if exists|j: int| 0 <= j < nv.len() && (#[trigger] nv[j]).0@ == key {
                                let j = choose|j: int| 0 <= j < nv.len() && (#[trigger] nv[j]).0@ == key;
                                assert(j != ov.len());
                                assert(ov[j] == nv[j]);
                            }
                        }
                    }
                }
            }
        },
    }
}

/// Drop the entry of key `k`, if any.
fn remove_entry<V>(v: &mut Vec<(String, V)>, k: &String)
    requires
        keys_distinct(old(v)@),
    ensures
        keys_distinct(final(v)@),
        forall|key: Seq<char>| #[trigger]
            entry_of(final(v)@, key) == if key == k@ {
                None
            } else {
                entry_of(old(v)@, key)
            },
{
    let ghost ov = v@;
    match find_entry(v, k) {
        Some(i) => {
            let _ = v.remove(i);
            proof {
                let nv = v@;
                assert(nv =~= ov.remove(i as int));
                assert(keys_distinct(nv)) by {
                    assert forall|a: int, b: int| 0 <= a < b < nv.len() implies (#[trigger] nv[a]).0@ != (#[trigger] nv[b]).0@ by {
                        let aa = if a < i { a } else { a + 1 };
                        let bb = if b < i { b } else { b + 1 };
                        assert(nv[a] == ov[aa] && nv[b] == ov[bb]);
                    }
                }
                assert forall|key: Seq<char>| #[trigger]
                    entry_of(nv, key) == if key == k@ {
                        None
                    } else {
                        entry_of(ov, key)
                    } by {
                    if exists|j: int| 0 <= j < nv.len() && (#[trigger] nv[j]).0@ == key {
                        let j = choose|j: int| 0 <= j < nv.len() && (#[trigger] nv[j]).0@ == key;
                        let jj = if j < i { j } else { j + 1 };
                        assert(nv[j] == ov[jj]);
                        if key == k@ {
                            assert(ov[jj].0@ == ov[i as int].0@);
                            assert(jj != i);
                            if jj < i {
                                assert(ov[jj].0@ != ov[i as int].0@);
                            } else {
                                assert(ov[i as int].0@ != ov[jj].0@);
                            }
                        }
                        lemma_entry_at(nv, j);
                        lemma_entry_at(ov, jj);
                    } else if key != k@ {
                        if exists|j: int| 0 <= j < ov.len() && (#[trigger] ov[j]).0@ == key {
                            let j = choose|j: int| 0 <= j < ov.len() && (#[trigger] ov[j]).0@ == key;
                            assert(j != i);
                            let jn = if j < i { j } else { j - 1 };
                            assert(nv[jn] == ov[j]);
                        }
                    }
                }
            }
        },
        None => {
            proof {
                assert forall|key: Seq<char>| #[trigger]
                    entry_of(v@, key) == if key == k@ {
                        None
                    } else {
                        entry_of(ov, key)
                    } by {
                    if key == k@ {
                        if exists|j: int| 0 <= j < ov.len() && (#[trigger] ov[j]).0@ == key {
                            let j = choose|j: int| 0 <= j < ov.len() && (#[trigger] ov[j]).0@ == key;
                            assert(ov[j].0@ != k@);
                        }
                    }
                }
            }
        },
    }
}

/// Tracing context for operations.
#[derive(Debug, Clone)]
pub struct TracingContext {
    pub trace_id: String,
    pub span_id: String,
    pub parent_span_id: Option<String>,
    /// Attributes, oldest first, each key at most once.
    pub attributes: Vec<(String, String)>,
}

/// What a tracing context holds, as values.
pub struct ContextView {
    pub trace_id: Seq<char>,
    pub span_id: Seq<char>,
    pub parent_span_id: Option<Seq<char>>,
    pub attributes: Seq<(String, String)>,
}

impl View for TracingContext {
    type V = ContextView;

    open spec fn view(&self) -> ContextView {
        ContextView {
            trace_id: self.trace_id@,
            span_id: self.span_id@,
            parent_span_id: match self.parent_span_id {
                Some(p) => Some(p@),
                None => None,
            },
            attributes: self.attributes@,
        }
    }
}

impl TracingContext {
    /// A new root context: a fresh trace id and span id, no parent, no
    /// attributes.
    pub fn new() -> (c: Self)
        ensures
            is_trace_id(c.trace_id@),
            is_span_id(c.span_id@),
            c.parent_span_id is None,
            c.attributes@.len() == 0,
    {
        TracingContext {
            trace_id: generate_trace_id(),
            span_id: generate_span_id(),
            parent_span_id: None,
            attributes: Vec::new(),
        }
    }

    /// A context inside the parent's trace: the parent's trace id, a fresh
    /// span id, the parent span as parent, no attributes.
    pub fn with_parent(parent_trace_id: String, parent_span_id: String) -> (c: Self)
        ensures
            c.trace_id == parent_trace_id,
            is_span_id(c.span_id@),
            c.parent_span_id == Some(parent_span_id),
            c.attributes@.len() == 0,
    {
        TracingContext {
            trace_id: parent_trace_id,
            span_id: generate_span_id(),
            parent_span_id: Some(parent_span_id),
            attributes: Vec::new(),
        }
    }

    /// Set an attribute, replacing an earlier value of the same key.
    pub fn add_attribute(&mut self, key: &str, value: &str)
        requires
            keys_distinct(old(self).attributes@),
        ensures
            keys_distinct(final(self).attributes@),
            entry_of(final(self).attributes@, key@) matches Some(v) && v@ == value@,
            forall|k: Seq<char>| k != key@ ==> #[trigger] entry_of(final(self).attributes@, k) == entry_of(old(self).attributes@, k),
            final(self).trace_id == old(self).trace_id,
            final(self).span_id == old(self).span_id,
            final(self).parent_span_id == old(self).parent_span_id,
    {
        let k = String::from_str(key);
        let v = String::from_str(value);
        put_entry(&mut self.attributes, k, v);
    }

    /// A copy of the context.
    fn duplicate(&self) -> (c: Self)
        ensures
            c@ == self@,
    {
        let mut attributes: Vec<(String, String)> = Vec::new();
        let mut i: usize = 0;
        while i < self.attributes.len()
            invariant
                i <= self.attributes@.len(),
                attributes@ == self.attributes@.subrange(0, i as int),
            decreases self.attributes@.len() - i,
        {
            let e = &self.attributes[i];
            attributes.push((e.0.clone(), e.1.clone()));
            i = i + 1;
            assert(attributes@ =~= self.attributes@.subrange(0, i as int));
        }
        assert(self.attributes@.subrange(0, self.attributes@.len() as int) =~= self.attributes@);
        let parent_span_id = match &self.parent_span_id {
            Some(p) => Some(p.clone()),
            None => None,
        };
        TracingContext { trace_id: self.trace_id.clone(), span_id: self.span_id.clone(), parent_span_id, attributes }
    }
}


/// Span manager for creating and managing spans.
pub struct SpanManager;

impl SpanManager {
    pub fn new(_service_name: &str) -> SpanManager {
        SpanManager
    }

    pub fn create_span(&self, _name: &str) -> TraceSpan {
        TraceSpan
    }

    pub fn create_span_with_context(&self, _name: &str, _context: &TracingContext) -> TraceSpan {
        TraceSpan
    }

    pub fn create_child_span(&self, _name: &str, _parent_span: &TraceSpan) -> TraceSpan {
        TraceSpan
    }
}

/// Create a span for a generic operation.
pub fn create_operation_span(_operation_name: &str) -> TraceSpan {
    TraceSpan
}

/// Create a span for blockchain operations.
pub fn create_blockchain_span(_operation_name: &str, _tx_hash: &str) -> TraceSpan {
    TraceSpan
}

/// Create a span for network operations.
pub fn create_network_span(_operation_name: &str, _peer_id: &str) -> TraceSpan {
    TraceSpan
}

/// Create a span for RPC operations.
pub fn create_rpc_span(_method: &str, _params: Option<&str>) -> TraceSpan {
    TraceSpan
}

/// Create a span for consensus operations.
pub fn create_consensus_span(_operation_name: &str, _round: u64) -> TraceSpan {
    TraceSpan
}

/// Span for an error raised by an operation.
pub fn trace_error(_error: &str, _operation: &str) -> TraceSpan {
    TraceSpan
}

/// A history of changes to a manager's contexts: `(id, Some(c))` stores
/// `c` under `id`, `(id, None)` removes `id`.
pub type ContextHistory = Seq<(Seq<char>, Option<ContextView>)>;

/// The contexts by operation id after the changes `h`, from `m`.
pub open spec fn replay(m: Map<Seq<char>, ContextView>, h: ContextHistory) -> Map<Seq<char>, ContextView>
    decreases h.len(),
{
    if h.len() == 0 {
        m
    } else {
        let before = replay(m, h.drop_last());
        match h.last().1 {
            Some(c) => before.insert(h.last().0, c),
            None => before.remove(h.last().0),
        }
    }
}

/// The context last stored under `id` in `h` and not removed since, if
/// any.
pub open spec fn latest_stored(h: ContextHistory, id: Seq<char>) -> Option<ContextView>
    decreases h.len(),
{
    if h.len() == 0 {
        None
    } else if h.last().0 == id {
        h.last().1
    } else {
        latest_stored(h.drop_last(), id)
    }
}

/// A manager that starts empty holds under each operation id exactly the
/// context last stored there and not removed since, and nothing under an
/// id with no such context.
pub proof fn lemma_context_history(h: ContextHistory, id: Seq<char>)
    ensures
        replay(Map::empty(), h).contains_key(id) <==> latest_stored(h, id) is Some,
        latest_stored(h, id) matches Some(c) ==> replay(Map::empty(), h)[id] == c,
    decreases h.len(),
{
    if h.len() > 0 {
        lemma_context_history(h.drop_last(), id);
    }
}

/// Tracing contexts of running operations, by operation id.
pub struct TracingContextManager {
    contexts: Vec<(String, TracingContext)>,
    changes: Ghost<ContextHistory>,
}

impl View for TracingContextManager {
    type V = Map<Seq<char>, ContextView>;

    closed spec fn view(&self) -> Map<Seq<char>, ContextView> {
        Map::new(
            |k: Seq<char>| entry_of(self.contexts@, k) is Some,
            |k: Seq<char>| entry_of(self.contexts@, k)->0@,
        )
    }
}

impl TracingContextManager {
    /// The manager's invariant: each operation id occurs once, and the
    /// contexts are those its history of changes leaves.
    pub closed spec fn wf(&self) -> bool {
        &&& keys_distinct(self.contexts@)
        &&& self@ == replay(Map::empty(), self.changes@)
    }

    /// The changes made to the manager since it was created, oldest first.
    pub closed spec fn history(&self) -> ContextHistory {
        self.changes@
    }

    /// Storing a context under a key changes the view at that key alone.
    proof fn lemma_view_insert(&self, old_m: Self, k: Seq<char>, c: TracingContext)
        requires
            forall|key: Seq<char>| #[trigger]
                entry_of(self.contexts@, key) == if key == k {
                    Some(c)
                } else {
                    entry_of(old_m.contexts@, key)
                },
        ensures
            self@ == old_m@.insert(k, c@),
    {
        assert(self@ =~= old_m@.insert(k, c@)) by {
            assert forall|key: Seq<char>| #[trigger] self@.contains_key(key) == old_m@.insert(k, c@).contains_key(key) by {
                assert(entry_of(self.contexts@, key) == if key == k {
                    Some(c)
                } else {
                    entry_of(old_m.contexts@, key)
                });
            }
            assert forall|key: Seq<char>| self@.contains_key(key) implies #[trigger] self@[key] == old_m@.insert(k, c@)[key] by {
                assert(entry_of(self.contexts@, key) == if key == k {
                    Some(c)
                } else {
                    entry_of(old_m.contexts@, key)
                });
            }
        }
    }

    /// An empty manager.
    pub fn new() -> (m: Self)
        ensures
            m.wf(),
            m@ == Map::<Seq<char>, ContextView>::empty(),
            m.history() == Seq::<(Seq<char>, Option<ContextView>)>::empty(),
    {
        let m = TracingContextManager { contexts: Vec::new(), changes: Ghost(Seq::empty()) };
        assert(m@ =~= Map::<Seq<char>, ContextView>::empty());
        m
    }

    /// Start a new root context for an operation, replacing any earlier one,
    /// and return it.
    pub fn create_context(&mut self, operation_id: &str) -> (c: TracingContext)
        requires
            old(self).wf(),
        ensures
            final(self).wf(),
            final(self)@ == old(self)@.insert(operation_id@, c@),
            final(self).history() == old(self).history().push((operation_id@, Some(c@))),
            is_trace_id(c.trace_id@),
            is_span_id(c.span_id@),
            c.parent_span_id is None,
            c.attributes@.len() == 0,
    {
        let context = TracingContext::new();
        let stored = context.duplicate();
        let ghost before = *self;
        put_entry(&mut self.contexts, String::from_str(operation_id), stored);
        self.changes = Ghost(before.changes@.push((operation_id@, Some(context@))));
        proof {
            self.lemma_view_insert(before, operation_id@, stored);
            assert(self.changes@.drop_last() =~= before.changes@);
        }
        context
    }

    /// The context of an operation, if any.
    pub fn get_context(&self, operation_id: &str) -> (r: Option<TracingContext>)
        requires
            self.wf(),
        ensures
            match r {
                Some(c) => self@.contains_key(operation_id@) && self@[operation_id@] == c@,
                None => !self@.contains_key(operation_id@),
            },
            match r {
                Some(c) => latest_stored(self.history(), operation_id@) == Some(c@),
                None => latest_stored(self.history(), operation_id@) is None,
            },
    {
        proof {
            lemma_context_history(self.changes@, operation_id@);
        }
        let key = String::from_str(operation_id);
        match find_entry(&self.contexts, &key) {
            Some(i) => {
                proof {
                    lemma_entry_at(self.contexts@, i as int);
                }
                Some(self.contexts[i].1.duplicate())
            },
            None => {
                proof {
                    if exists|j: int| 0 <= j < self.contexts@.len() && (#[trigger] self.contexts@[j]).0@ == operation_id@ {
                        let j = choose|j: int| 0 <= j < self.contexts@.len() && (#[trigger] self.contexts@[j]).0@ == operation_id@;
                        assert(self.contexts@[j].0@ != key@);
                    }
                }
                None
            },
        }
    }

    /// Forget the context of an operation.
    pub fn remove_context(&mut self, operation_id: &str)
        requires
            old(self).wf(),
        ensures
            final(self).wf(),
            final(self)@ == old(self)@.remove(operation_id@),
            final(self).history() == old(self).history().push((operation_id@, None)),
    {
        let key = String::from_str(operation_id);
        let ghost before = *self;
        remove_entry(&mut self.contexts, &key);
        self.changes = Ghost(before.changes@.push((operation_id@, None)));
        proof {
            assert(self.changes@.drop_last() =~= before.changes@);
            assert(self@ =~= before@.remove(operation_id@)) by {
                assert forall|k: Seq<char>| #[trigger] self@.contains_key(k) == before@.remove(operation_id@).contains_key(k) by {
                    assert(entry_of(self.contexts@, k) == if k == key@ {
                        None
                    } else {
                        entry_of(before.contexts@, k)
                    });
                }
                assert forall|k: Seq<char>| self@.contains_key(k) implies #[trigger] self@[k] == before@.remove(operation_id@)[k] by {
                    assert(entry_of(self.contexts@, k) == if k == key@ {
                        None
                    } else {
                        entry_of(before.contexts@, k)
                    });
                }
            }
        }
    }

    /// Start a context for an operation inside the trace of a parent
    /// operation's context, and return it; `None` (and no change) when the
    /// parent operation has no context.
    pub fn create_child_context(&mut self, operation_id: &str, parent_operation_id: &str) -> (r: Option<TracingContext>)
        requires
            old(self).wf(),
        ensures
            final(self).wf(),
            match r {
                Some(c) => {
                    &&& old(self)@.contains_key(parent_operation_id@)
                    &&& c.trace_id@ == old(self)@[parent_operation_id@].trace_id
                    &&& c.parent_span_id matches Some(p) && p@ == old(self)@[parent_operation_id@].span_id
                    &&& is_span_id(c.span_id@)
                    &&& c.attributes@.len() == 0
                    &&& final(self)@ == old(self)@.insert(operation_id@, c@)
                    &&& final(self).history() == old(self).history().push((operation_id@, Some(c@)))
                },
                None => !old(self)@.contains_key(parent_operation_id@) && final(self)@ == old(self)@
                    && final(self).history() == old(self).history(),
            },
    {
        let parent = match self.get_context(parent_operation_id) {
            Some(p) => p,
            None => {
                return None;
            },
        };
        let child = TracingContext::with_parent(parent.trace_id, parent.span_id);
        let stored = child.duplicate();
        let ghost before = *self;
        put_entry(&mut self.contexts, String::from_str(operation_id), stored);
        self.changes = Ghost(before.changes@.push((operation_id@, Some(child@))));
        proof {
            self.lemma_view_insert(before, operation_id@, stored);
            assert(self.changes@.drop_last() =~= before.changes@);
        }
        Some(child)
    }
}


/// A span that measures the duration of an operation from its creation.
pub struct PerformanceSpan {
    span: TraceSpan,
    start_time: std::time::Instant,
    operation_name: String,
}

impl PerformanceSpan {
    /// The measured operation's name.
    pub closed spec fn name(&self) -> Seq<char> {
        self.operation_name@
    }

    /// Start measuring an operation now.
    pub fn new(operation_name: &str) -> (p: Self)
        ensures
            p.name() == operation_name@,
    {
        let span = create_operation_span(operation_name);
        let start_time = instant_now();
        PerformanceSpan { span, start_time, operation_name: String::from_str(operation_name) }
    }

    /// Record an attribute on the span.
    /// Spans keep no attributes, so the span is left as it was.
    pub fn add_attribute(&mut self, key: &str, value: &str)
        ensures
            *final(self) == *old(self),
    {
        self.span.set_attribute(key, value);
    }

    /// Mark the span as failed with an error message.
    /// Spans keep no status or attributes, so the span is left as it was.
    pub fn record_error(&mut self, error: &str)
        ensures
            *final(self) == *old(self),
    {
        self.span.set_status(TraceStatus::Error);
        self.span.set_attribute("error", "true");
        self.span.set_attribute("error.message", error);
    }

    /// The measured operation's name.
    pub fn operation_name(&self) -> (r: &String)
        ensures
            r@ == self.name(),
    {
        &self.operation_name
    }

    /// When the measurement started.
    pub closed spec fn started(&self) -> std::time::Instant {
        self.start_time
    }

    /// When the measurement started.
    pub fn start_time(&self) -> (t: std::time::Instant)
        ensures
            t == self.started(),
    {
        self.start_time
    }
}

/// Span for the lifecycle of a received transaction.
pub fn trace_transaction_lifecycle(tx_hash: &str) -> (p: PerformanceSpan)
    ensures
        p.name() == "transaction_lifecycle"@,
{
    let mut span = PerformanceSpan::new("transaction_lifecycle");
    span.add_attribute("transaction.hash", tx_hash);
    span.add_attribute("transaction.phase", "received");
    span
}

/// Span for producing the block at a height.
pub fn trace_block_production(block_height: u64) -> (p: PerformanceSpan)
    ensures
        p.name() == "block_production"@,
{
    let mut span = PerformanceSpan::new("block_production");
    let height = block_height.to_string();
    span.add_attribute("block.height", height.as_str());
    span
}

/// Span for a consensus round.
pub fn trace_consensus_round(round: u64, algorithm: &str) -> (p: PerformanceSpan)
    ensures
        p.name() == "consensus_round"@,
{
    let mut span = PerformanceSpan::new("consensus_round");
    let r = round.to_string();
    span.add_attribute("consensus.round", r.as_str());
    span.add_attribute("consensus.algorithm", algorithm);
    span
}

/// Span for a network message from a peer.
pub fn trace_network_message(peer_id: &str, message_type: &str) -> (p: PerformanceSpan)
    ensures
        p.name() == "network_message"@,
{
    let mut span = PerformanceSpan::new("network_message");
    span.add_attribute("peer.id", peer_id);
    span.add_attribute("message.type", message_type);
    span
}

} // verus!
