//! The tome: scrolls stored under byte-string addresses, looked up by the
//! shortest unambiguous address prefix.
//!
//! Entries are kept ordered by address (byte-wise lexicographic order), as
//! an ordered map would keep them; a lookup by prefix reports the single
//! matching entry, every matching address with its title when there are
//! several, or that nothing matches.
use vstd::prelude::*;

use crate::text::{decimal_text, push_char, push_decimal};

verus! {

/// Largest accepted size, in bytes, of a scroll's serialized form.
pub const MAX_SCROLL_SIZE: usize = 4096;

// ---------------------------------------------------------------------------
// Scrolls
// ---------------------------------------------------------------------------

/// What a scroll holds.
#[derive(Debug, PartialEq)]
pub enum ScrollKind {
    Text(String),
    Reference(String),
    Alias(Vec<u8>),
    Action { program: String, args: Vec<u8> },
}

/// A scroll's kind as plain values.
pub enum ScrollKindView {
    Text(Seq<char>),
    Reference(Seq<char>),
    Alias(Seq<u8>),
    Action { program: Seq<char>, args: Seq<u8> },
}

impl View for ScrollKind {
    type V = ScrollKindView;

    open spec fn view(&self) -> ScrollKindView {
        match self {
            ScrollKind::Text(s) => ScrollKindView::Text(s@),
            ScrollKind::Reference(s) => ScrollKindView::Reference(s@),
            ScrollKind::Alias(a) => ScrollKindView::Alias(a@),
            ScrollKind::Action { program, args } => ScrollKindView::Action {
                program: program@,
                args: args@,
            },
        }
    }
}

/// A stored document with its metadata.
#[derive(Debug, PartialEq)]
pub struct Scroll {
    pub version: u8,
    pub kind: ScrollKind,
    pub title: String,
    pub created_epoch_secs: u64,
    pub updated_epoch_secs: u64,
}

/// A scroll as plain values.
pub struct ScrollView {
    pub version: u8,
    pub kind: ScrollKindView,
    pub title: Seq<char>,
    pub created_epoch_secs: u64,
    pub updated_epoch_secs: u64,
}

impl View for Scroll {
    type V = ScrollView;

    open spec fn view(&self) -> ScrollView {
        ScrollView {
            version: self.version,
            kind: self.kind@,
            title: self.title@,
            created_epoch_secs: self.created_epoch_secs,
            updated_epoch_secs: self.updated_epoch_secs,
        }
    }
}

fn copy_bytes(v: &Vec<u8>) -> (r: Vec<u8>)
    ensures
        r@ == v@,
{
    let mut r: Vec<u8> = Vec::new();
    let mut i: usize = 0;
    while i < v.len()
        invariant
            i <= v@.len(),
            r@ =~= v@.take(i as int),
        decreases v@.len() - i,
    {
        r.push(v[i]);
        i += 1;
    }
    assert(v@.take(v@.len() as int) =~= v@);
    r
}

impl Clone for ScrollKind {
    fn clone(&self) -> (r: ScrollKind)
        ensures
            r@ == self@,
    {
        match self {
            ScrollKind::Text(s) => ScrollKind::Text(s.clone()),
            ScrollKind::Reference(s) => ScrollKind::Reference(s.clone()),
            ScrollKind::Alias(a) => ScrollKind::Alias(copy_bytes(a)),
            ScrollKind::Action { program, args } => ScrollKind::Action {
                program: program.clone(),
                args: copy_bytes(args),
            },
        }
    }
}

impl Clone for Scroll {
    fn clone(&self) -> (r: Scroll)
        ensures
            r@ == self@,
    {
        Scroll {
            version: self.version,
            kind: self.kind.clone(),
            title: self.title.clone(),
            created_epoch_secs: self.created_epoch_secs,
            updated_epoch_secs: self.updated_epoch_secs,
        }
    }
}

// ---------------------------------------------------------------------------
// Errors and lookup results
// ---------------------------------------------------------------------------

/// Errors of storing a scroll.
#[derive(Debug, Clone, Copy, PartialEq, Eq, Structural)]
pub enum TomeError {
    /// The scroll's serialized form has this many bytes, more than `MAX_SCROLL_SIZE`.
    ScrollTooLarge(usize),
    /// The scroll could not be serialized.
    SerializationFailed,
}

/// The human-readable text of a tome error.
pub open spec fn tome_error_text(e: TomeError) -> Seq<char> {
    match e {
        TomeError::ScrollTooLarge(size) => "scroll too large: "@ + decimal_text(size as nat)
            + " bytes (max "@ + decimal_text(MAX_SCROLL_SIZE as nat) + seq![')'],
        TomeError::SerializationFailed => "scroll serialization failed"@,
    }
}

impl TomeError {
    /// The human-readable message of this error.
    pub fn message(&self) -> (m: String)
        ensures
            m@ == tome_error_text(*self),
    {
        let mut m = String::new();
        match *self {
            TomeError::ScrollTooLarge(size) => {
                m.append("scroll too large: ");
                push_decimal(&mut m, size as u64);
                m.append(" bytes (max ");
                push_decimal(&mut m, MAX_SCROLL_SIZE as u64);
                push_char(&mut m, ')');
            },
            TomeError::SerializationFailed => {
                m.append("scroll serialization failed");
            },
        }
        proof {
            assert(m@ =~= tome_error_text(*self));
        }
        m
    }
}

/// The outcome of looking up an address prefix.
#[derive(Debug, Clone, PartialEq)]
pub enum LookupResult {
    /// Exactly one address starts with the prefix.
    Found(Vec<u8>, Scroll),
    /// Several addresses start with the prefix: each with its scroll's title.
    Ambiguous(Vec<(Vec<u8>, String)>),
    /// No address starts with the prefix.
    NotFound,
}

// ---------------------------------------------------------------------------
// Address order
// ---------------------------------------------------------------------------

/// Byte-wise lexicographic order on addresses: `a` sorts before `b`.
pub open spec fn addr_lt(a: Seq<u8>, b: Seq<u8>) -> bool
    decreases a.len(),
{
    if a.len() == 0 {
        b.len() > 0
    } else if b.len() == 0 {
        false
    } else if a[0] != b[0] {
        a[0] < b[0]
    } else {
        addr_lt(a.drop_first(), b.drop_first())
    }
}

proof fn lemma_addr_lt_irreflexive(a: Seq<u8>)
    ensures
        !addr_lt(a, a),
    decreases a.len(),
{
    if a.len() > 0 {
        lemma_addr_lt_irreflexive(a.drop_first());
    }
}

proof fn lemma_addr_lt_transitive(a: Seq<u8>, b: Seq<u8>, c: Seq<u8>)
    requires
        addr_lt(a, b),
        addr_lt(b, c),
    ensures
        addr_lt(a, c),
    decreases a.len(),
{
    if a.len() > 0 && b.len() > 0 && c.len() > 0 {
        if a[0] == b[0] && b[0] == c[0] {
            lemma_addr_lt_transitive(a.drop_first(), b.drop_first(), c.drop_first());
        }
    }
}

proof fn lemma_addr_lt_total(a: Seq<u8>, b: Seq<u8>)
    ensures
        a == b || addr_lt(a, b) || addr_lt(b, a),
    decreases a.len(),
{
    if a.len() > 0 && b.len() > 0 && a[0] == b[0] {
        lemma_addr_lt_total(a.drop_first(), b.drop_first());
        if a.drop_first() == b.drop_first() {
            assert(a =~= seq![a[0]] + a.drop_first());
            assert(b =~= seq![b[0]] + b.drop_first());
        }
    } else if a.len() == 0 && b.len() == 0 {
        assert(a =~= b);
    }
}

proof fn lemma_addr_lt_asymmetric(a: Seq<u8>, b: Seq<u8>)
    requires
        addr_lt(a, b),
    ensures
        !addr_lt(b, a),
{
    if addr_lt(b, a) {
        lemma_addr_lt_transitive(a, b, a);
        lemma_addr_lt_irreflexive(a);
    }
}

/// Result of comparing two addresses.
pub enum AddrOrder {
    Less,
    Equal,
    Greater,
}

fn compare_addrs(a: &[u8], b: &[u8]) -> (r: AddrOrder)
    ensures
        match r {
            AddrOrder::Less => addr_lt(a@, b@),
            AddrOrder::Equal => a@ == b@,
            AddrOrder::Greater => addr_lt(b@, a@),
        },
{
    let mut i: usize = 0;
    assert(a@.skip(0) =~= a@);
    assert(b@.skip(0) =~= b@);
    while i < a.len() && i < b.len()
        invariant
            i <= a@.len(),
            i <= b@.len(),
            a@.take(i as int) == b@.take(i as int),
            addr_lt(a@, b@) == addr_lt(a@.skip(i as int), b@.skip(i as int)),
            addr_lt(b@, a@) == addr_lt(b@.skip(i as int), a@.skip(i as int)),
        decreases a@.len() - i,
    {
        if a[i] < b[i] {
            return AddrOrder::Less;
        }
        if a[i] > b[i] {
            return AddrOrder::Greater;
        }
        assert(a@.skip(i as int).drop_first() =~= a@.skip(i + 1));
        assert(b@.skip(i as int).drop_first() =~= b@.skip(i + 1));
        assert(a@.take(i + 1) =~= a@.take(i as int).push(a@[i as int]));
        assert(b@.take(i + 1) =~= b@.take(i as int).push(b@[i as int]));
        i += 1;
    }
    if a.len() == b.len() {
        assert(a@ =~= a@.take(i as int));
        assert(b@ =~= b@.take(i as int));
        AddrOrder::Equal
    } else if a.len() < b.len() {
        AddrOrder::Less
    } else {
        AddrOrder::Greater
    }
}

/// `prefix` is a prefix of `key`.
pub open spec fn has_prefix(key: Seq<u8>, prefix: Seq<u8>) -> bool {
    prefix.len() <= key.len() && key.take(prefix.len() as int) == prefix
}

fn starts_with(key: &[u8], prefix: &[u8]) -> (b: bool)
    ensures
        b == has_prefix(key@, prefix@),
{
    if prefix.len() > key.len() {
        return false;
    }
    let mut i: usize = 0;
    while i < prefix.len()
        invariant
            prefix@.len() <= key@.len(),
            i <= prefix@.len(),
            key@.take(i as int) == prefix@.take(i as int),
        decreases prefix@.len() - i,
    {
        if key[i] != prefix[i] {
            assert(key@.take(prefix@.len() as int)[i as int] != prefix@[i as int]);
            return false;
        }
        assert(key@.take(i + 1) =~= key@.take(i as int).push(key@[i as int]));
        assert(prefix@.take(i + 1) =~= prefix@.take(i as int).push(prefix@[i as int]));
        i += 1;
    }
    assert(prefix@.take(prefix@.len() as int) =~= prefix@);
    true
}

// ---------------------------------------------------------------------------
// The tome
// ---------------------------------------------------------------------------

/// Entries whose addresses are in strictly increasing order.
pub open spec fn keys_sorted(entries: Seq<(Seq<u8>, ScrollView)>) -> bool {
    forall|i: int, j: int|
        0 <= i < j < entries.len() ==> addr_lt(#[trigger] entries[i].0, #[trigger] entries[j].0)
}

/// The map from addresses to scrolls that an entry list holds.
pub open spec fn entries_map(entries: Seq<(Seq<u8>, ScrollView)>) -> Map<Seq<u8>, ScrollView>
    decreases entries.len(),
{
    if entries.len() == 0 {
        Map::empty()
    } else {
        entries_map(entries.drop_last()).insert(entries.last().0, entries.last().1)
    }
}

/// The entries whose addresses start with `prefix`, in order.
pub open spec fn entries_with_prefix(entries: Seq<(Seq<u8>, ScrollView)>, prefix: Seq<u8>) -> Seq<
    (Seq<u8>, ScrollView),
>
    decreases entries.len(),
{
    if entries.len() == 0 {
        seq![]
    } else {
        let e = entries.last();
        entries_with_prefix(entries.drop_last(), prefix) + (if has_prefix(e.0, prefix) {
            seq![e]
        } else {
            seq![]
        })
    }
}

/// Scrolls stored under byte-string addresses, kept in address order.
#[derive(Debug)]
pub struct Tome {
    entries: Vec<(Vec<u8>, Scroll)>,
}

impl View for Tome {
    type V = Seq<(Seq<u8>, ScrollView)>;

    /// The entries, in increasing address order, as plain values.
    closed spec fn view(&self) -> Seq<(Seq<u8>, ScrollView)> {
        Seq::new(self.entries@.len(), |i: int| (self.entries@[i].0@, self.entries@[i].1@))
    }
}

impl Tome {
    #[verifier::type_invariant]
    spec fn inv(&self) -> bool {
        keys_sorted(self@)
    }

    pub fn new() -> (t: Tome)
        ensures
            t@ == Seq::<(Seq<u8>, ScrollView)>::empty(),
    {
        let t = Tome { entries: Vec::new() };
        assert(t@ =~= Seq::<(Seq<u8>, ScrollView)>::empty());
        t
    }

    /// Position of the first entry whose address is not before `address`,
    /// and whether that entry's address is `address`.
    fn position_of(&self, address: &[u8]) -> (r: (usize, bool))
        ensures
            r.0 <= self@.len(),
            forall|i: int| 0 <= i < r.0 ==> addr_lt(#[trigger] self@[i].0, address@),
            r.0 < self@.len() ==> !addr_lt(self@[r.0 as int].0, address@),
            r.1 <==> (r.0 < self@.len() && self@[r.0 as int].0 == address@),
            !r.1 ==> forall|i: int| r.0 <= i < self@.len() ==> addr_lt(address@, #[trigger] self@[i].0),
    {
        proof {
            use_type_invariant(self);
        }
        let n = self.entries.len();
        let mut i: usize = 0;
        while i < n
            invariant
                n == self@.len(),
                i <= n,
                keys_sorted(self@),
                forall|t: int| 0 <= t < i ==> addr_lt(#[trigger] self@[t].0, address@),
            decreases n - i,
        {
            let key: &Vec<u8> = &self.entries[i].0;
            assert(key@ == self@[i as int].0);
            match compare_addrs(key.as_slice(), address) {
                AddrOrder::Less => {},
                AddrOrder::Equal => {
                    proof {
                        lemma_addr_lt_irreflexive(address@);
                    }
                    return (i, true);
                },
                AddrOrder::Greater => {
                    proof {
                        assert forall|t: int| i <= t < n implies addr_lt(
                            address@,
                            #[trigger] self@[t].0,
                        ) by {
                            if t > i {
                                lemma_addr_lt_transitive(address@, self@[i as int].0, self@[t].0);
                            }
                        }
                        lemma_addr_lt_asymmetric(address@, self@[i as int].0);
                    }
                    return (i, false);
                },
            }
            i += 1;
        }
        (n, false)
    }
}


/// Entry addresses are pairwise different.
pub open spec fn keys_distinct(entries: Seq<(Seq<u8>, ScrollView)>) -> bool {
    forall|i: int, j: int|
        0 <= i < entries.len() && 0 <= j < entries.len() && i != j ==> (#[trigger] entries[i]).0
            != (#[trigger] entries[j]).0
}

proof fn lemma_sorted_distinct(entries: Seq<(Seq<u8>, ScrollView)>)
    requires
        keys_sorted(entries),
    ensures
        keys_distinct(entries),
{
    assert forall|i: int, j: int|
        0 <= i < entries.len() && 0 <= j < entries.len() && i != j implies (#[trigger] entries[i]).0
        != (#[trigger] entries[j]).0 by {
        if i < j {
            lemma_addr_lt_irreflexive(entries[i].0);
        } else {
            lemma_addr_lt_irreflexive(entries[j].0);
        }
    }
}

/// With pairwise different addresses, the map of an entry list has exactly
/// the entries' addresses as keys, each mapped to its entry's scroll.
proof fn lemma_entries_map(entries: Seq<(Seq<u8>, ScrollView)>)
    requires
        keys_distinct(entries),
    ensures
        forall|k: Seq<u8>|
            #[trigger] entries_map(entries).contains_key(k) <==> exists|i: int|
                0 <= i < entries.len() && entries[i].0 == k,
        forall|i: int|
            0 <= i < entries.len() ==> #[trigger] entries_map(entries)[entries[i].0]
                == entries[i].1,
    decreases entries.len(),
{
    if entries.len() > 0 {
        let p = entries.drop_last();
        assert(keys_distinct(p));
        lemma_entries_map(p);
        let last = entries.len() - 1;
        assert forall|k: Seq<u8>| #[trigger] entries_map(entries).contains_key(k) <==> exists|i: int|
            0 <= i < entries.len() && entries[i].0 == k by {
            if entries_map(p).contains_key(k) {
                let i = choose|i: int| 0 <= i < p.len() && p[i].0 == k;
                assert(entries[i].0 == k);
            }
            if exists|i: int| 0 <= i < entries.len() && entries[i].0 == k {
                let i = choose|i: int| 0 <= i < entries.len() && entries[i].0 == k;
                if i < last {
                    assert(p[i].0 == k);
                }
            }
        }
        assert forall|i: int| 0 <= i < entries.len() implies #[trigger] entries_map(
            entries,
        )[entries[i].0] == entries[i].1 by {
            if i < last {
                assert(p[i] == entries[i]);
                assert(entries[i].0 != entries[last].0);
                assert(entries_map(p)[p[i].0] == p[i].1);
            }
        }
    }
}

/// Two distinct-address entry lists with the same address/scroll pairs hold the same map.
proof fn lemma_entries_map_ext(
    a: Seq<(Seq<u8>, ScrollView)>,
    m: Map<Seq<u8>, ScrollView>,
)
    requires
        keys_distinct(a),
        forall|k: Seq<u8>| #[trigger] m.contains_key(k) <==> exists|i: int| 0 <= i < a.len() && a[i].0 == k,
        forall|i: int| 0 <= i < a.len() ==> #[trigger] m[a[i].0] == a[i].1,
    ensures
        entries_map(a) == m,
{
    lemma_entries_map(a);
    assert forall|k: Seq<u8>| #[trigger] entries_map(a).contains_key(k) implies entries_map(a)[k]
        == m[k] by {
        let i = choose|i: int| 0 <= i < a.len() && a[i].0 == k;
        assert(entries_map(a)[a[i].0] == a[i].1);
    }
    assert(entries_map(a) =~= m);
}

impl Default for Tome {
    fn default() -> (t: Tome)
        ensures
            t@ == Seq::<(Seq<u8>, ScrollView)>::empty(),
    {
        Tome::new()
    }
}

impl Tome {
    /// The entries held as plain values (the same sequence as the view).
    spec fn entries_view(entries: Seq<(Vec<u8>, Scroll)>) -> Seq<(Seq<u8>, ScrollView)> {
        Seq::new(entries.len(), |i: int| (entries[i].0@, entries[i].1@))
    }

    /// Store `scroll` under `address`, replacing any scroll already stored there.
    pub fn insert(&mut self, address: Vec<u8>, scroll: Scroll)
        ensures
            keys_sorted(final(self)@),
            entries_map(final(self)@) == entries_map(old(self)@).insert(address@, scroll@),
    {
        proof {
            use_type_invariant(&*self);
        }
        let ghost old_view = self@;
        let ghost key = address@;
        let ghost val = scroll@;
        let (pos, found) = self.position_of(address.as_slice());
        let mut entries: Vec<(Vec<u8>, Scroll)> = Vec::new();
        std::mem::swap(&mut entries, &mut self.entries);
        assert(Tome::entries_view(entries@) =~= old_view);
        if found {
            entries.set(pos, (address, scroll));
            let ghost nv = Tome::entries_view(entries@);
            assert(nv =~= old_view.update(pos as int, (key, val)));
            assert(keys_sorted(nv));
        } else {
            entries.insert(pos, (address, scroll));
            let ghost nv = Tome::entries_view(entries@);
            assert(nv =~= old_view.insert(pos as int, (key, val)));
            assert forall|i: int, j: int| 0 <= i < j < nv.len() implies addr_lt(
                #[trigger] nv[i].0,
                #[trigger] nv[j].0,
            ) by {
                if j < pos {
                } else if j == pos {
                } else if i < pos {
                    assert(addr_lt(old_view[i].0, key));
                    assert(addr_lt(key, old_view[j - 1].0));
                    lemma_addr_lt_transitive(old_view[i].0, key, old_view[j - 1].0);
                } else if i == pos {
                } else {
                }
            }
        }
        let ghost nv = Tome::entries_view(entries@);
        proof {
            lemma_sorted_distinct(old_view);
            lemma_sorted_distinct(nv);
            lemma_entries_map(old_view);
            let m = entries_map(old_view).insert(key, val);
            assert forall|k: Seq<u8>| #[trigger] m.contains_key(k) <==> exists|i: int|
                0 <= i < nv.len() && nv[i].0 == k by {
                if k == key {
                    assert(nv[pos as int].0 == key);
                } else if entries_map(old_view).contains_key(k) {
                    let i = choose|i: int| 0 <= i < old_view.len() && old_view[i].0 == k;
                    if found {
                        assert(nv[i].0 == k);
                    } else if i < pos {
                        assert(nv[i].0 == k);
                    } else {
                        assert(nv[i + 1].0 == k);
                    }
                }
                if exists|i: int| 0 <= i < nv.len() && nv[i].0 == k {
                    let i = choose|i: int| 0 <= i < nv.len() && nv[i].0 == k;
                    if k != key {
                        if found {
                            assert(old_view[i].0 == k);
                        } else if i < pos {
                            assert(old_view[i].0 == k);
                        } else {
                            assert(old_view[i - 1].0 == k);
                        }
                    }
                }
            }
            assert forall|i: int| 0 <= i < nv.len() implies #[trigger] m[nv[i].0] == nv[i].1 by {
                if nv[i].0 != key {
                    if found {
                        assert(nv[i] == old_view[i]);
                    } else if i < pos {
                        assert(nv[i] == old_view[i]);
                    } else {
                        assert(nv[i] == old_view[i - 1]);
                    }
                } else {
                    lemma_addr_lt_irreflexive(key);
                    if i != pos {
                        if found {
                            assert(nv[i] == old_view[i]);
                            assert(old_view[i].0 == old_view[pos as int].0);
                        } else if i < pos {
                            assert(nv[i] == old_view[i]);
                            assert(addr_lt(old_view[i].0, key));
                        } else {
                            assert(nv[i] == old_view[i - 1]);
                            assert(addr_lt(key, old_view[i - 1].0));
                        }
                    }
                    assert(i == pos);
                }
            }
            lemma_entries_map_ext(nv, m);
        }
        self.entries = entries;
    }

    /// Store `scroll` under `address` when its serialized form, of
    /// `serialized_size` bytes, is at most `MAX_SCROLL_SIZE` bytes; otherwise
    /// leave the tome unchanged and report the size.
    pub fn try_insert_sized(&mut self, address: Vec<u8>, scroll: Scroll, serialized_size: usize) -> (r:
        Result<(), TomeError>)
        ensures
            keys_sorted(final(self)@),
            serialized_size > MAX_SCROLL_SIZE ==> r == Err::<(), TomeError>(
                TomeError::ScrollTooLarge(serialized_size),
            ) && final(self)@ == old(self)@,
            serialized_size <= MAX_SCROLL_SIZE ==> r is Ok && entries_map(final(self)@)
                == entries_map(old(self)@).insert(address@, scroll@),
    {
        proof {
            use_type_invariant(&*self);
        }
        if serialized_size > MAX_SCROLL_SIZE {
            return Err(TomeError::ScrollTooLarge(serialized_size));
        }
        self.insert(address, scroll);
        Ok(())
    }

    /// Remove the scroll stored under `address`; returns whether there was one.
    pub fn remove(&mut self, address: &[u8]) -> (r: bool)
        ensures
            keys_sorted(final(self)@),
            r == entries_map(old(self)@).contains_key(address@),
            entries_map(final(self)@) == entries_map(old(self)@).remove(address@),
    {
        proof {
            use_type_invariant(&*self);
        }
        let ghost old_view = self@;
        let ghost key = address@;
        proof {
            lemma_sorted_distinct(old_view);
            lemma_entries_map(old_view);
        }
        let (pos, found) = self.position_of(address);
        if !found {
            proof {
                if entries_map(old_view).contains_key(key) {
                    let i = choose|i: int| 0 <= i < old_view.len() && old_view[i].0 == key;
                    lemma_addr_lt_irreflexive(key);
                }
                assert(entries_map(old_view).remove(key) =~= entries_map(old_view));
            }
            return false;
        }
        let mut entries: Vec<(Vec<u8>, Scroll)> = Vec::new();
        std::mem::swap(&mut entries, &mut self.entries);
        assert(Tome::entries_view(entries@) =~= old_view);
        let _removed = entries.remove(pos);
        let ghost nv = Tome::entries_view(entries@);
        assert(nv =~= old_view.remove(pos as int));
        proof {
            assert(keys_sorted(nv)) by {
                assert forall|i: int, j: int| 0 <= i < j < nv.len() implies addr_lt(
                    #[trigger] nv[i].0,
                    #[trigger] nv[j].0,
                ) by {
                    if i < pos && j >= pos {
                        assert(nv[j] == old_view[j + 1]);
                    }
                }
            }
            lemma_sorted_distinct(nv);
            let m = entries_map(old_view).remove(key);
            assert forall|k: Seq<u8>| #[trigger] m.contains_key(k) <==> exists|i: int|
                0 <= i < nv.len() && nv[i].0 == k by {
                if m.contains_key(k) {
                    let i = choose|i: int| 0 <= i < old_view.len() && old_view[i].0 == k;
                    if i < pos {
                        assert(nv[i].0 == k);
                    } else {
                        assert(i != pos);
                        assert(nv[i - 1].0 == k);
                    }
                }
                if exists|i: int| 0 <= i < nv.len() && nv[i].0 == k {
                    let i = choose|i: int| 0 <= i < nv.len() && nv[i].0 == k;
                    if i < pos {
                        assert(old_view[i].0 == k);
                        assert(i != pos as int);
                    } else {
                        assert(old_view[i + 1].0 == k);
                        assert(i + 1 != pos as int);
                    }
                }
            }
            assert forall|i: int| 0 <= i < nv.len() implies #[trigger] m[nv[i].0] == nv[i].1 by {
                if i < pos {
                    assert(nv[i] == old_view[i]);
                    assert(i != pos as int);
                } else {
                    assert(nv[i] == old_view[i + 1]);
                    assert(i + 1 != pos as int);
                }
            }
            lemma_entries_map_ext(nv, m);
        }
        self.entries = entries;
        true
    }

    /// All entries, in increasing address order.
    pub fn list(&self) -> (r: Vec<(&Vec<u8>, &Scroll)>)
        ensures
            keys_sorted(self@),
            r@.len() == self@.len(),
            forall|i: int|
                0 <= i < r@.len() ==> (#[trigger] r@[i]).0@ == self@[i].0 && r@[i].1@ == self@[i].1,
    {
        proof {
            use_type_invariant(self);
        }
        let mut r: Vec<(&Vec<u8>, &Scroll)> = Vec::new();
        let mut i: usize = 0;
        while i < self.entries.len()
            invariant
                i <= self@.len(),
                self@.len() == self.entries@.len(),
                r@.len() == i,
                forall|t: int|
                    0 <= t < i ==> (#[trigger] r@[t]).0@ == self@[t].0 && r@[t].1@ == self@[t].1,
            decreases self@.len() - i,
        {
            let e = &self.entries[i];
            r.push((&e.0, &e.1));
            i += 1;
        }
        r
    }

    /// Look up the entries whose address starts with `prefix`.
    ///
    /// One match gives that entry; several give each matching address with
    /// its scroll's title, in address order; none gives `NotFound`.
    pub fn lookup(&self, prefix: &[u8]) -> (r: LookupResult)
        ensures
            keys_sorted(self@),
            ({
                let m = entries_with_prefix(self@, prefix@);
                match r {
                    LookupResult::NotFound => m.len() == 0,
                    LookupResult::Found(a, s) => m.len() == 1 && a@ == m[0].0 && s@ == m[0].1,
                    LookupResult::Ambiguous(v) => m.len() >= 2 && v@.len() == m.len() && forall|
                        i: int,
                    |
                        0 <= i < v@.len() ==> (#[trigger] v@[i]).0@ == m[i].0 && v@[i].1@
                            == m[i].1.title,
                }
            }),
    {
        proof {
            use_type_invariant(self);
        }
        let ghost view = self@;
        let n = self.entries.len();
        let mut hits: Vec<usize> = Vec::new();
        let mut i: usize = 0;
        while i < n
            invariant
                n == view.len(),
                view == self@,
                i <= n,
                hits@.len() == entries_with_prefix(view.take(i as int), prefix@).len(),
                forall|t: int|
                    0 <= t < hits@.len() ==> (#[trigger] hits@[t]) < n && view[hits@[t] as int]
                        == entries_with_prefix(view.take(i as int), prefix@)[t],
            decreases n - i,
        {
            let key: &Vec<u8> = &self.entries[i].0;
            assert(key@ == view[i as int].0);
            assert(view.take(i + 1).drop_last() =~= view.take(i as int));
            assert(view.take(i + 1).last() == view[i as int]);
            let ghost before = entries_with_prefix(view.take(i as int), prefix@);
            if starts_with(key.as_slice(), prefix) {
                hits.push(i);
                assert(entries_with_prefix(view.take(i + 1), prefix@) =~= before.push(
                    view[i as int],
                ));
            } else {
                assert(entries_with_prefix(view.take(i + 1), prefix@) =~= before);
            }
            i += 1;
        }
        assert(view.take(n as int) =~= view);
        let ghost m = entries_with_prefix(view, prefix@);
        if hits.len() == 0 {
            return LookupResult::NotFound;
        }
        if hits.len() == 1 {
            let e = &self.entries[hits[0]];
            return LookupResult::Found(copy_bytes(&e.0), e.1.clone());
        }
        let mut out: Vec<(Vec<u8>, String)> = Vec::new();
        let mut t: usize = 0;
        while t < hits.len()
            invariant
                view == self@,
                n == view.len(),
                hits@.len() == m.len(),
                forall|u: int|
                    0 <= u < hits@.len() ==> (#[trigger] hits@[u]) < n && view[hits@[u] as int]
                        == m[u],
                t <= hits@.len(),
                out@.len() == t,
                forall|u: int|
                    0 <= u < t ==> (#[trigger] out@[u]).0@ == m[u].0 && out@[u].1@ == m[u].1.title,
            decreases hits@.len() - t,
        {
            let e = &self.entries[hits[t]];
            out.push((copy_bytes(&e.0), e.1.title.clone()));
            t += 1;
        }
        LookupResult::Ambiguous(out)
    }
}

// ---------------------------------------------------------------------------
// Addresses as hexadecimal text
// ---------------------------------------------------------------------------

/// The lowercase hexadecimal digit of a value below 16.
pub open spec fn hex_digit(v: int) -> char {
    if v < 10 {
        ((48 + v) as u32) as char
    } else {
        ((87 + v) as u32) as char
    }
}

/// An address as text: two lowercase hexadecimal digits per byte.
pub open spec fn hex_text(address: Seq<u8>) -> Seq<char>
    decreases address.len(),
{
    if address.len() == 0 {
        seq![]
    } else {
        let b = address.last();
        hex_text(address.drop_last()) + seq![hex_digit(b as int / 16), hex_digit(b as int % 16)]
    }
}

/// Render an address as text, two lowercase hexadecimal digits per byte.
pub fn address_to_hex(address: &[u8]) -> (s: String)
    ensures
        s@ == hex_text(address@),
{
    let mut s = String::new();
    let mut i: usize = 0;
    while i < address.len()
        invariant
            i <= address@.len(),
            s@ == hex_text(address@.take(i as int)),
        decreases address@.len() - i,
    {
        let b = address[i];
        let hi = b / 16;
        let lo = b % 16;
        let ch = if hi < 10 {
            (48 + hi) as char
        } else {
            (87 + hi) as char
        };
        let cl = if lo < 10 {
            (48 + lo) as char
        } else {
            (87 + lo) as char
        };
        push_char(&mut s, ch);
        push_char(&mut s, cl);
        assert(address@.take(i + 1).drop_last() =~= address@.take(i as int));
        assert(s@ =~= hex_text(address@.take(i + 1)));
        i += 1;
    }
    assert(address@.take(address@.len() as int) =~= address@);
    s
}

/// Why text is not an address.
#[derive(Debug, Clone, Copy, PartialEq, Eq, Structural)]
pub enum HexKeyError {
    /// The text holds a non-ASCII character.
    NonAscii,
    /// The text has an odd number of characters.
    OddLength,
    /// Some pair of characters is not a hexadecimal number.
    InvalidHex,
}

/// The human-readable text of an address parsing error.
pub open spec fn hex_key_error_text(e: HexKeyError) -> Seq<char> {
    match e {
        HexKeyError::NonAscii => "non-ASCII hex key"@,
        HexKeyError::OddLength => "odd-length hex key"@,
        HexKeyError::InvalidHex => "invalid hex in key"@,
    }
}

impl HexKeyError {
    /// The human-readable message of this error.
    pub fn message(&self) -> (m: String)
        ensures
            m@ == hex_key_error_text(*self),
    {
        let mut m = String::new();
        match *self {
            HexKeyError::NonAscii => m.append("non-ASCII hex key"),
            HexKeyError::OddLength => m.append("odd-length hex key"),
            HexKeyError::InvalidHex => m.append("invalid hex in key"),
        }
        proof {
            assert(m@ =~= hex_key_error_text(*self));
        }
        m
    }
}

/// The value of a hexadecimal digit (either case).
pub open spec fn hex_digit_value(c: char) -> Option<u8> {
    let u = c as u32;
    if 48 <= u && u <= 57 {
        Some((u - 48) as u8)
    } else if 97 <= u && u <= 102 {
        Some((u - 87) as u8)
    } else if 65 <= u && u <= 70 {
        Some((u - 55) as u8)
    } else {
        None
    }
}

/// The byte that a two-character hexadecimal number denotes, parsed as
/// `u8::from_str_radix(_, 16)` parses it: an optional leading `+` sign,
/// then digits.
pub open spec fn hex_pair_value(c0: char, c1: char) -> Option<u8> {
    if c0 == '+' {
        hex_digit_value(c1)
    } else {
        match (hex_digit_value(c0), hex_digit_value(c1)) {
            (Some(h), Some(l)) => Some((h * 16 + l) as u8),
            _ => None,
        }
    }
}

/// The address that a text denotes: it must be ASCII, of even length, and
/// every consecutive pair of characters must be a hexadecimal byte.
pub open spec fn parse_hex_text(s: Seq<char>) -> Result<Seq<u8>, HexKeyError> {
    if !vstd::utf8::is_ascii_chars(s) {
        Err(HexKeyError::NonAscii)
    } else if s.len() % 2 != 0 {
        Err(HexKeyError::OddLength)
    } else if exists|i: int| 0 <= i < s.len() / 2 && (#[trigger] hex_pair_value(s[2 * i], s[2 * i + 1])) is None {
        Err(HexKeyError::InvalidHex)
    } else {
        Ok(Seq::new((s.len() / 2) as nat, |i: int| hex_pair_value(s[2 * i], s[2 * i + 1])->0))
    }
}

fn hex_digit_char_value(c: char) -> (r: Option<u8>)
    ensures
        r == hex_digit_value(c),
{
    let u = c as u32;
    if 48 <= u && u <= 57 {
        Some((u - 48) as u8)
    } else if 97 <= u && u <= 102 {
        Some((u - 87) as u8)
    } else if 65 <= u && u <= 70 {
        Some((u - 55) as u8)
    } else {
        None
    }
}

fn hex_pair_char_value(c0: char, c1: char) -> (r: Option<u8>)
    ensures
        r == hex_pair_value(c0, c1),
{
    if c0 == '+' {
        return hex_digit_char_value(c1);
    }
    match (hex_digit_char_value(c0), hex_digit_char_value(c1)) {
        (Some(h), Some(l)) => Some(h * 16 + l),
        _ => None,
    }
}

/// Parse an address from its text form (see `address_to_hex`).
///
/// Rejects non-ASCII text, text of odd length, and pairs of characters that
/// are not hexadecimal bytes.
pub fn address_from_hex(key: &str) -> (r: Result<Vec<u8>, HexKeyError>)
    ensures
        match (r, parse_hex_text(key@)) {
            (Ok(v), Ok(a)) => v@ == a,
            (Err(e), Err(f)) => e == f,
            _ => false,
        },
{
    if !key.is_ascii() {
        return Err(HexKeyError::NonAscii);
    }
    let n = key.unicode_len();
    if n % 2 != 0 {
        return Err(HexKeyError::OddLength);
    }
    let ghost s = key@;
    let mut bytes: Vec<u8> = Vec::new();
    let mut i: usize = 0;
    while i < n / 2
        invariant
            s == key@,
            vstd::utf8::is_ascii_chars(s),
            n == s.len(),
            n % 2 == 0,
            i <= n / 2,
            bytes@ =~= Seq::new(i as nat, |t: int| hex_pair_value(s[2 * t], s[2 * t + 1])->0),
            forall|t: int| 0 <= t < i ==> (#[trigger] hex_pair_value(s[2 * t], s[2 * t + 1])) is Some,
        decreases n / 2 - i,
    {
        let c0 = key.get_char(2 * i);
        let c1 = key.get_char(2 * i + 1);
        match hex_pair_char_value(c0, c1) {
            Some(b) => {
                bytes.push(b);
            },
            None => {
                assert(hex_pair_value(s[2 * i as int], s[2 * i + 1]) is None);
                return Err(HexKeyError::InvalidHex);
            },
        }
        i += 1;
    }
    Ok(bytes)
}

// ---------------------------------------------------------------------------
// Laws
// ---------------------------------------------------------------------------

proof fn lemma_hex_text_len(a: Seq<u8>)
    ensures
        hex_text(a).len() == 2 * a.len(),
        forall|i: int|
            0 <= i < a.len() ==> #[trigger] hex_text(a)[2 * i] == hex_digit(a[i] as int / 16)
                && hex_text(a)[2 * i + 1] == hex_digit(a[i] as int % 16),
    decreases a.len(),
{
    if a.len() > 0 {
        let p = a.drop_last();
        lemma_hex_text_len(p);
        assert forall|i: int| 0 <= i < a.len() implies #[trigger] hex_text(a)[2 * i] == hex_digit(
            a[i] as int / 16,
        ) && hex_text(a)[2 * i + 1] == hex_digit(a[i] as int % 16) by {
            if i < p.len() {
                assert(p[i] == a[i]);
                assert(hex_text(p)[2 * i] == hex_digit(p[i] as int / 16));
            }
        }
    }
}

/// Parsing the text form of an address gives the address back.
pub proof fn law_hex_roundtrip(a: Seq<u8>)
    ensures
        parse_hex_text(hex_text(a)) == Ok::<Seq<u8>, HexKeyError>(a),
{
    lemma_hex_text_len(a);
    let s = hex_text(a);
    assert forall|j: int| 0 <= j < s.len() implies '\0' <= #[trigger] s[j] <= '\u{7f}' by {
        let i = j / 2;
        assert(s[2 * i] == hex_digit(a[i] as int / 16));
        if j % 2 == 0 {
            assert(j == 2 * i);
        } else {
            assert(j == 2 * i + 1);
        }
    }
    assert forall|i: int| 0 <= i < s.len() / 2 implies (#[trigger] hex_pair_value(s[2 * i], s[2 * i + 1]))
        == Some(a[i]) by {
        assert(s[2 * i] == hex_digit(a[i] as int / 16));
    }
    assert(parse_hex_text(s) is Ok);
    assert(parse_hex_text(s)->Ok_0 =~= a);
}

proof fn lemma_entries_with_prefix(e: Seq<(Seq<u8>, ScrollView)>, p: Seq<u8>)
    ensures
        forall|i: int|
            0 <= i < entries_with_prefix(e, p).len() ==> e.contains(
                #[trigger] entries_with_prefix(e, p)[i],
            ) && has_prefix(entries_with_prefix(e, p)[i].0, p),
        forall|i: int|
            0 <= i < e.len() && has_prefix(e[i].0, p) ==> entries_with_prefix(e, p).contains(
                #[trigger] e[i],
            ),
        keys_sorted(e) ==> keys_sorted(entries_with_prefix(e, p)),
    decreases e.len(),
{
    if e.len() > 0 {
        let q = e.drop_last();
        lemma_entries_with_prefix(q, p);
        let w = entries_with_prefix(e, p);
        let wq = entries_with_prefix(q, p);
        assert forall|i: int| 0 <= i < w.len() implies e.contains(#[trigger] w[i]) && has_prefix(
            w[i].0,
            p,
        ) by {
            if i < wq.len() {
                assert(w[i] == wq[i]);
                let t = choose|t: int| 0 <= t < q.len() && q[t] == wq[i];
                assert(e[t] == w[i]);
            } else {
                assert(e[e.len() - 1] == w[i]);
            }
        }
        assert forall|i: int| 0 <= i < e.len() && has_prefix(e[i].0, p) implies w.contains(
            #[trigger] e[i],
        ) by {
            if i < q.len() {
                assert(q[i] == e[i]);
                let t = choose|t: int| 0 <= t < wq.len() && wq[t] == q[i];
                assert(w[t] == e[i]);
            } else {
                assert(w[w.len() - 1] == e[i]);
            }
        }
        if keys_sorted(e) {
            assert(keys_sorted(q));
            assert forall|i: int, j: int| 0 <= i < j < w.len() implies addr_lt(
                #[trigger] w[i].0,
                #[trigger] w[j].0,
            ) by {
                if j < wq.len() {
                    assert(w[i] == wq[i] && w[j] == wq[j]);
                } else {
                    assert(w[i] == wq[i]);
                    let t = choose|t: int| 0 <= t < q.len() && q[t] == wq[i];
                    assert(e[t] == w[i]);
                    assert(w[j] == e[e.len() - 1]);
                }
            }
        }
    }
}

/// A lookup by prefix sees exactly the stored entries whose address starts
/// with the prefix: an address is listed if and only if it is stored and
/// starts with the prefix, each with the scroll stored under it, in
/// increasing address order.
pub proof fn law_lookup_matches_stored(e: Seq<(Seq<u8>, ScrollView)>, p: Seq<u8>)
    requires
        keys_sorted(e),
    ensures
        forall|i: int|
            0 <= i < entries_with_prefix(e, p).len() ==> entries_map(e).contains_key(
                (#[trigger] entries_with_prefix(e, p)[i]).0,
            ) && has_prefix(entries_with_prefix(e, p)[i].0, p) && entries_with_prefix(e, p)[i].1
                == entries_map(e)[entries_with_prefix(e, p)[i].0],
        forall|k: Seq<u8>|
            #[trigger] entries_map(e).contains_key(k) && has_prefix(k, p) ==> exists|i: int|
                0 <= i < entries_with_prefix(e, p).len() && entries_with_prefix(e, p)[i].0 == k,
        keys_sorted(entries_with_prefix(e, p)),
{
    lemma_sorted_distinct(e);
    lemma_entries_map(e);
    lemma_entries_with_prefix(e, p);
    let w = entries_with_prefix(e, p);
    assert forall|i: int| 0 <= i < w.len() implies entries_map(e).contains_key((#[trigger] w[i]).0)
        && has_prefix(w[i].0, p) && w[i].1 == entries_map(e)[w[i].0] by {
        let t = choose|t: int| 0 <= t < e.len() && e[t] == w[i];
        assert(entries_map(e)[e[t].0] == e[t].1);
    }
    assert forall|k: Seq<u8>| #[trigger] entries_map(e).contains_key(k) && has_prefix(k, p) implies exists|
        i: int,
    | 0 <= i < w.len() && w[i].0 == k by {
        let t = choose|t: int| 0 <= t < e.len() && e[t].0 == k;
        assert(w.contains(e[t]));
        let i = choose|i: int| 0 <= i < w.len() && w[i] == e[t];
        assert(w[i].0 == k);
    }
}

/// What a read gives back of a write: once a scroll is stored under an
/// address that no other stored address extends, looking that address up
/// finds exactly that address and scroll.
pub proof fn law_lookup_finds_stored(e: Seq<(Seq<u8>, ScrollView)>, a: Seq<u8>, s: ScrollView)
    requires
        keys_sorted(e),
        entries_map(e).contains_key(a),
        entries_map(e)[a] == s,
        forall|k: Seq<u8>| #[trigger] entries_map(e).contains_key(k) && has_prefix(k, a) ==> k == a,
    ensures
        entries_with_prefix(e, a) == seq![(a, s)],
{
    law_lookup_matches_stored(e, a);
    let w = entries_with_prefix(e, a);
    assert(a.take(a.len() as int) =~= a);
    assert(has_prefix(a, a));
    let i0 = choose|i: int| 0 <= i < w.len() && w[i].0 == a;
    assert forall|i: int| 0 <= i < w.len() implies (#[trigger] w[i]).0 == a by {
        let k = w[i].0;
        assert(entries_map(e).contains_key(k) && has_prefix(k, a));
    }
    if w.len() > 1 {
        assert(w[0].0 == a && w[1].0 == a);
        assert(addr_lt(w[0].0, w[1].0));
        lemma_addr_lt_irreflexive(a);
    }
    assert(w[0] == (a, s));
    assert(w =~= seq![(a, s)]);
}

/// Once an address holds no scroll (as after `remove`), no lookup by any
/// prefix reports it.
pub proof fn law_removed_address_not_found(e: Seq<(Seq<u8>, ScrollView)>, a: Seq<u8>, p: Seq<u8>)
    requires
        keys_sorted(e),
        !entries_map(e).contains_key(a),
    ensures
        forall|i: int|
            0 <= i < entries_with_prefix(e, p).len() ==> (#[trigger] entries_with_prefix(e, p)[i]).0
                != a,
{
    law_lookup_matches_stored(e, p);
}
} // verus!
