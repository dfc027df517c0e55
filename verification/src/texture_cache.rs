//! Caller-owned invalidation handle for a cached texture.

use std::sync::atomic::{AtomicBool, AtomicU64, Ordering};
use std::sync::Arc;
use vstd::prelude::*;
use vstd::std_specs::cmp::PartialEqSpecImpl;

verus! {

/// Unique identity of a [`TextureCache`]; shared by all its clones.
#[derive(Debug, Clone, Copy, PartialEq, Eq, Structural, Hash)]
pub struct TextureCacheId(u64);

/// The state every clone of a handle shares.
#[derive(Debug)]
pub struct Inner {
    invalidated: AtomicBool,
    /// Bumped by every `invalidate`.
    generation: AtomicU64,
    records: AtomicU64,
    /// The last record was refused as too large.
    uncacheable: AtomicBool,
}

/// A handle to a cached texture. Cloning shares the same cache.
///
/// The flags live in atomics shared by every clone, so what a read returns
/// depends on every other handle; the contracts below state only what holds
/// whatever the other handles did.
#[derive(Debug)]
pub struct TextureCache {
    id: TextureCacheId,
    inner: Arc<Inner>,
}

/// The address of the value `value` refers to.
///
/// Calls `std::ptr::from_ref` and reads the pointer's address. Two
/// references to one value give one address, and no two live values of
/// non-zero size share one; the number itself is wherever the value
/// happens to live, so nothing is promised about it.
#[verifier::external_body]
fn address_of<T>(value: &T) -> usize {
    std::ptr::from_ref(value).addr()
}

/// Leaks `boxed` for the rest of the process.
///
/// Calls `Box::leak`, which hands back a reference to the boxed value and
/// never frees it.
#[verifier::external_body]
fn leak<T>(boxed: Box<T>) -> (leaked: &'static T)
    ensures
        *leaked == *boxed,
{
    Box::leak(boxed)
}

/// A number no other call in this process returns: the address of a byte
/// leaked for the purpose. A leaked allocation is never freed, so its
/// address is never handed out again; each call keeps one byte for the
/// rest of the process.
fn fresh_identity() -> u64 {
    let anchor = leak(Box::new(0u8));
    address_of(anchor) as u64
}

/// Identity of a texture shared through an `Arc`: the address of the
/// shared value, which every clone of the `Arc` shares and which cannot be
/// reused while any clone lives.
pub fn texture_key<T>(view: &Arc<T>) -> usize {
    address_of(&**view)
}

/// The digit `d` as a character.
pub open spec fn digit_char(d: int) -> char {
    if d == 0 {
        '0'
    } else if d == 1 {
        '1'
    } else if d == 2 {
        '2'
    } else if d == 3 {
        '3'
    } else if d == 4 {
        '4'
    } else if d == 5 {
        '5'
    } else if d == 6 {
        '6'
    } else if d == 7 {
        '7'
    } else if d == 8 {
        '8'
    } else {
        '9'
    }
}

/// `n` written in decimal, without leading zeros.
pub open spec fn decimal(n: nat) -> Seq<char>
    decreases n,
{
    if n < 10 {
        seq![digit_char(n as int)]
    } else {
        decimal(n / 10).push(digit_char((n % 10) as int))
    }
}

/// The digit `d` as a one-character string.
fn digit_str(d: u64) -> (text: &'static str)
    requires
        d < 10,
    ensures
        text@ == seq![digit_char(d as int)],
{
    proof {
        reveal_strlit("0");
        reveal_strlit("1");
        reveal_strlit("2");
        reveal_strlit("3");
        reveal_strlit("4");
        reveal_strlit("5");
        reveal_strlit("6");
        reveal_strlit("7");
        reveal_strlit("8");
        reveal_strlit("9");
    }
    match d {
        0 => "0",
        1 => "1",
        2 => "2",
        3 => "3",
        4 => "4",
        5 => "5",
        6 => "6",
        7 => "7",
        8 => "8",
        _ => "9",
    }
}

/// Appends `n` in decimal.
fn append_decimal(text: &mut String, n: u64)
    ensures
        final(text)@ == old(text)@ + decimal(n as nat),
    decreases n,
{
    if n >= 10 {
        append_decimal(text, n / 10);
    }
    text.append(digit_str(n % 10));
    assert(old(text)@ + decimal(n as nat) =~= if n >= 10 {
        old(text)@ + decimal((n / 10) as nat) + seq![digit_char((n % 10) as int)]
    } else {
        old(text)@ + seq![digit_char((n % 10) as int)]
    });
}

impl TextureCacheId {
    /// The number this identity is.
    pub closed spec fn spec_number(self) -> u64 {
        self.0
    }

    /// The number this identity is, for keying the crate's own maps.
    pub(crate) fn number(self) -> (number: u64)
        ensures
            number == self.spec_number(),
    {
        self.0
    }

    /// The identity as it is displayed: `cache#` and its number.
    pub fn to_string(&self) -> (text: String)
        ensures
            text@ == "cache#"@ + decimal(self.spec_number() as nat),
    {
        let mut text = String::from_str("cache#");
        append_decimal(&mut text, self.0);
        text
    }
}

impl TextureCache {
    /// The identity this handle was created with.
    pub closed spec fn spec_id(&self) -> TextureCacheId {
        self.id
    }

    /// The state this handle shares with its clones.
    pub closed spec fn spec_inner(&self) -> Arc<Inner> {
        self.inner
    }

    /// Creates a new, invalidated cache with a fresh identity, one that no
    /// other cache of this process has had or will have.
    pub fn new() -> (cache: Self) {
        TextureCache {
            id: TextureCacheId(fresh_identity()),
            inner: Arc::new(
                Inner {
                    invalidated: AtomicBool::new(true),
                    generation: AtomicU64::new(1),
                    records: AtomicU64::new(0),
                    uncacheable: AtomicBool::new(false),
                },
            ),
        }
    }

    /// Creates a new, invalidated cache whose identity is the next number
    /// drawn from `next_id`, a counter the application keeps for the whole
    /// process: caches made this way are numbered 1, 2, 3, ... when the
    /// counter starts at 1, and leak nothing. A process should draw every
    /// identity from one source, this counter or [`TextureCache::new`].
    pub fn from_counter(next_id: &AtomicU64) -> (cache: Self) {
        TextureCache {
            id: TextureCacheId(next_id.fetch_add(1, Ordering::Relaxed)),
            inner: Arc::new(
                Inner {
                    invalidated: AtomicBool::new(true),
                    generation: AtomicU64::new(1),
                    records: AtomicU64::new(0),
                    uncacheable: AtomicBool::new(false),
                },
            ),
        }
    }

    /// The identity shared by every clone of this handle.
    pub fn id(&self) -> (id: TextureCacheId)
        ensures
            id == self.spec_id(),
    {
        self.id
    }

    /// Marks the cached content stale; the next draw re-records it. Every
    /// call bumps the generation, even when the flag was already set.
    pub fn invalidate(&self) {
        self.inner.invalidated.store(true, Ordering::Relaxed);
        let _ = self.inner.generation.fetch_add(1, Ordering::Relaxed);
    }

    /// Whether the cache is waiting to be re-recorded.
    pub fn is_invalidated(&self) -> bool {
        self.inner.invalidated.load(Ordering::Relaxed)
    }

    /// Number of times [`invalidate`](Self::invalidate) has been called,
    /// plus one for the initial invalidation.
    pub fn generation(&self) -> u64 {
        self.inner.generation.load(Ordering::Relaxed)
    }

    /// Number of times this cache has been rasterized. Diagnostics only.
    pub fn record_count(&self) -> u64 {
        self.inner.records.load(Ordering::Relaxed)
    }

    /// Clears the invalidation flag and returns whether it was set.
    pub fn take_invalidated(&self) -> bool {
        self.inner.invalidated.swap(false, Ordering::Relaxed)
    }

    /// Counts one rasterization and clears the uncacheable mark.
    pub fn note_record(&self) {
        let _ = self.inner.records.fetch_add(1, Ordering::Relaxed);
        self.inner.uncacheable.store(false, Ordering::Relaxed);
    }

    /// Whether the last record was refused as too large for a texture.
    pub fn is_uncacheable(&self) -> bool {
        self.inner.uncacheable.load(Ordering::Relaxed)
    }

    /// Notes that a record was refused as too large.
    pub fn note_uncacheable(&self) {
        self.inner.uncacheable.store(true, Ordering::Relaxed);
    }

    /// The state every clone shares; a store keeps a weak handle to it to
    /// learn when the last clone is dropped.
    pub fn shared(&self) -> (shared: &Arc<Inner>)
        ensures
            *shared == self.spec_inner(),
    {
        &self.inner
    }
}

/// A clone is another handle on the same cache: the same identity and the
/// same shared state.
impl Clone for TextureCache {
    fn clone(&self) -> (cloned: Self)
        ensures
            cloned.spec_id() == self.spec_id(),
            cloned.spec_inner() == self.spec_inner(),
    {
        TextureCache { id: self.id, inner: Arc::clone(&self.inner) }
    }
}

impl Default for TextureCache {
    fn default() -> Self {
        Self::new()
    }
}

impl PartialEq for TextureCache {
    fn eq(&self, other: &Self) -> (equal: bool) {
        self.id == other.id
    }
}

impl PartialEqSpecImpl for TextureCache {
    open spec fn obeys_eq_spec() -> bool {
        true
    }

    open spec fn eq_spec(&self, other: &Self) -> bool {
        self.spec_id() == other.spec_id()
    }
}

impl Eq for TextureCache {

}

/// `u64`'s `Hash::hash` of std: feeds the number to `state`. Nothing is
/// claimed of what the hasher does with it.
pub assume_specification<H: std::hash::Hasher>[<u64 as std::hash::Hash>::hash::<H>](
    data: &u64,
    state: &mut H,
);

/// Hashes by identity, as `==` compares.
impl std::hash::Hash for TextureCache {
    fn hash<H: std::hash::Hasher>(&self, state: &mut H) {
        self.id.0.hash(state);
    }
}

} // verus!
