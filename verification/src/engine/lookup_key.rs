//! Inline-first encoding of the internal key used by every read path.
//!
//! Format (see [`super::internal_key`]):
//! `[cf_id BE(4)][user_key][!seq BE(8)][value_type(1)]`
//!
//! The prefixed user key is a strict prefix of the internal key, so one buffer
//! answers both. Buffers up to [`INLINE_KEY_CAP`] bytes never touch the
//! allocator, and moving to a different snapshot overwrites eight bytes of the
//! trailer.

use super::internal_key::internal_key;
use super::internal_key::VALUE_TYPE_DELETION;
use crate::bytes::append_bytes;
use crate::bytes::be32;
use crate::bytes::be64;
use crate::bytes::put_be32;
use crate::bytes::put_be64;
use vstd::prelude::*;
use vstd::slice::slice_subrange;

verus! {

/// Bytes held on the stack before an over-long key spills to the heap.
///
/// Two cache lines: covers a 4-byte prefix, a user key up to 115 bytes, and
/// the 9-byte trailer.
pub const INLINE_KEY_CAP: usize = 128;

/// Byte buffer that lives on the stack until it does not fit.
///
/// Exactly one of the two storages is live: `spill` is unused until the first
/// overflow, and from then on `inline` is dead. Clearing keeps whichever is
/// live, so a spilled buffer keeps its heap capacity.
pub struct InlineBuf {
    inline: [u8; 128],
    spill: Vec<u8>,
    len: usize,
    spilled: bool,
}

impl View for InlineBuf {
    type V = Seq<u8>;

    closed spec fn view(&self) -> Seq<u8> {
        if self.spilled {
            self.spill@
        } else {
            self.inline@.take(self.len as int)
        }
    }
}

impl InlineBuf {
    /// The length is that of the live storage.
    pub closed spec fn wf(&self) -> bool {
        if self.spilled {
            self.len == self.spill@.len()
        } else {
            self.len <= 128
        }
    }

    /// The heap is the live storage.
    pub closed spec fn on_heap(&self) -> bool {
        self.spilled
    }

    /// An empty buffer.
    pub fn new() -> (r: Self)
        ensures
            r.wf(),
            r@ == Seq::<u8>::empty(),
            !r.on_heap(),
    {
        let r = InlineBuf { inline: [0u8; 128], spill: Vec::new(), len: 0, spilled: false };
        assert(r@ =~= Seq::<u8>::empty());
        r
    }

    /// Drop the contents, keeping the live storage and its capacity.
    pub fn clear(&mut self)
        requires
            old(self).wf(),
        ensures
            final(self).wf(),
            final(self)@ == Seq::<u8>::empty(),
            final(self).on_heap() == old(self).on_heap(),
    {
        self.len = 0;
        if self.spilled {
            self.spill.clear();
        }
        assert(self@ =~= Seq::<u8>::empty());
    }

    /// Append bytes, moving to the heap where they do not fit.
    pub fn extend_from_slice(&mut self, bytes: &[u8])
        requires
            old(self).wf(),
        ensures
            final(self).wf(),
            final(self)@ == old(self)@ + bytes@,
            final(self).on_heap() == (old(self).on_heap() || old(self)@.len() + bytes@.len()
                > INLINE_KEY_CAP),
    {
        let ghost before = self@;
        if self.spilled {
            append_bytes(&mut self.spill, bytes);
            self.len = self.spill.len();
            return;
        }
        if bytes.len() <= INLINE_KEY_CAP - self.len {
            let start: usize = self.len;
            let mut i: usize = 0;
            while i < bytes.len()
                invariant
                    start + bytes@.len() <= 128,
                    i <= bytes@.len(),
                    start == self.len,
                    !self.spilled,
                    before == self.inline@.take(start as int),
                    forall|j: int| 0 <= j < i ==> self.inline@[start + j] == bytes@[j],
                decreases bytes@.len() - i,
            {
                let ghost old_inline = self.inline@;
                self.inline[start + i] = bytes[i];
                assert(self.inline@.take(start as int) =~= old_inline.take(start as int));
                i += 1;
            }
            self.len = start + bytes.len();
            assert(self@ =~= before + bytes@);
            return;
        }
        self.spill.clear();
        let head = slice_subrange(self.inline.as_slice(), 0, self.len);
        append_bytes(&mut self.spill, head);
        append_bytes(&mut self.spill, bytes);
        self.spilled = true;
        self.len = self.spill.len();
        assert(self@ =~= before + bytes@);
    }

    /// The contents.
    pub fn as_slice(&self) -> (r: &[u8])
        requires
            self.wf(),
        ensures
            r@ == self@,
    {
        if self.spilled {
            self.spill.as_slice()
        } else {
            let r = slice_subrange(self.inline.as_slice(), 0, self.len);
            assert(r@ =~= self@);
            r
        }
    }

    /// Overwrite the bytes from `at` on.
    pub fn overwrite(&mut self, at: usize, bytes: &[u8])
        requires
            old(self).wf(),
            at + bytes@.len() <= old(self)@.len(),
        ensures
            final(self).wf(),
            final(self)@ == old(self)@.take(at as int) + bytes@ + old(self)@.skip(
                at + bytes@.len(),
            ),
            final(self).on_heap() == old(self).on_heap(),
    {
        let ghost before = self@;
        let n: usize = bytes.len();
        let total: usize = self.len;
        let mut i: usize = 0;
        while i < n
            invariant
                n == bytes@.len(),
                i <= n,
                at + n <= total,
                total == self.len,
                total == before.len(),
                self.wf(),
                self@.len() == total,
                self.on_heap() == old(self).on_heap(),
                forall|j: int|
                    0 <= j < total ==> #[trigger] self@[j] == if at <= j < at + i {
                        bytes@[j - at]
                    } else {
                        before[j]
                    },
            decreases n - i,
        {
            let ghost prev = self@;
            if self.spilled {
                self.spill.set(at + i, bytes[i]);
            } else {
                self.inline[at + i] = bytes[i];
            }
            assert(self@ =~= prev.update(at + i, bytes@[i as int]));
            i += 1;
        }
        assert(self@ =~= before.take(at as int) + bytes@ + before.skip(at + n));
    }

    /// The length of the contents.
    pub fn len(&self) -> (r: usize)
        requires
            self.wf(),
        ensures
            r == self@.len(),
    {
        self.len
    }

    /// True when this buffer has spilled to the heap.
    pub fn spilled(&self) -> (r: bool)
        ensures
            r == self.on_heap(),
    {
        self.spilled
    }
}

impl Default for InlineBuf {
    fn default() -> (r: Self)
        ensures
            r.wf(),
            r@ == Seq::<u8>::empty(),
    {
        Self::new()
    }
}

/// The single encoded key form shared by every read path, built once and
/// threaded down by reference.
pub struct LookupKey {
    buf: InlineBuf,
    /// The length of the prefixed user key, where the trailer starts.
    user_end: usize,
    snapshot_seq: u64,
}

impl LookupKey {
    /// The prefixed user key.
    pub closed spec fn user(&self) -> Seq<u8> {
        self.buf@.take(self.user_end as int)
    }

    /// The snapshot.
    pub closed spec fn snapshot(&self) -> u64 {
        self.snapshot_seq
    }

    /// The buffer holds the search key of the user key at the snapshot.
    pub closed spec fn wf(&self) -> bool {
        &&& self.buf.wf()
        &&& self.user_end + 9 == self.buf@.len()
        &&& self.buf@ == internal_key(
            self.buf@.take(self.user_end as int),
            self.snapshot_seq,
            VALUE_TYPE_DELETION,
        )
    }

    /// The key needed the heap.
    pub closed spec fn on_heap(&self) -> bool {
        self.buf.on_heap()
    }

    /// Encode `cf_id || user_key || !snapshot_seq || VALUE_TYPE_DELETION`.
    pub fn new(cf_id: u32, user_key: &[u8], snapshot_seq: u64) -> (r: Self)
        ensures
            r.wf(),
            r.user() == be32(cf_id) + user_key@,
            r.snapshot() == snapshot_seq,
            r.on_heap() == (4 + user_key@.len() + 9 > INLINE_KEY_CAP),
    {
        let mut lk = LookupKey { buf: InlineBuf::new(), user_end: 0, snapshot_seq };
        lk.fill(cf_id, user_key, snapshot_seq);
        lk
    }

    /// Wrap a key that is already prefixed. It is taken as it stands, however
    /// short.
    pub fn from_prefixed(prefixed: &[u8], snapshot_seq: u64) -> (r: Self)
        ensures
            r.wf(),
            r.user() == prefixed@,
            r.snapshot() == snapshot_seq,
            r.on_heap() == (prefixed@.len() + 9 > INLINE_KEY_CAP),
    {
        let mut lk = LookupKey { buf: InlineBuf::new(), user_end: 0, snapshot_seq };
        lk.buf.extend_from_slice(prefixed);
        assert(Seq::<u8>::empty() + prefixed@ =~= prefixed@);
        lk.finish_trailer(snapshot_seq);
        lk
    }

    /// `cf_id || user_key`.
    pub fn prefixed_user_key(&self) -> (r: &[u8])
        requires
            self.wf(),
        ensures
            r@ == self.user(),
    {
        let r = slice_subrange(self.buf.as_slice(), 0, self.user_end);
        assert(r@ =~= self.user());
        r
    }

    /// The full internal key.
    pub fn internal(&self) -> (r: &[u8])
        requires
            self.wf(),
        ensures
            r@ == internal_key(self.user(), self.snapshot(), VALUE_TYPE_DELETION),
    {
        self.buf.as_slice()
    }

    /// The snapshot that the key searches at.
    pub fn snapshot_seq(&self) -> (r: u64)
        ensures
            r == self.snapshot(),
    {
        self.snapshot_seq
    }

    /// Move the probe to a different snapshot, overwriting the sequence
    /// number in place.
    pub fn set_snapshot_seq(&mut self, seq: u64)
        requires
            old(self).wf(),
        ensures
            final(self).wf(),
            final(self).user() == old(self).user(),
            final(self).snapshot() == seq,
            final(self).on_heap() == old(self).on_heap(),
    {
        let mut trailer: Vec<u8> = Vec::new();
        put_be64(&mut trailer, !seq);
        assert(trailer@ =~= be64(!seq));
        let ghost before = self.buf@;
        let ghost user = self.buf@.take(self.user_end as int);
        self.buf.overwrite(self.user_end, trailer.as_slice());
        self.snapshot_seq = seq;
        proof {
            assert(self.buf@.take(self.user_end as int) =~= user);
            assert(before.skip(self.user_end + 8) =~= seq![VALUE_TYPE_DELETION]);
            assert(self.buf@ =~= internal_key(user, seq, VALUE_TYPE_DELETION));
        }
    }

    /// Re-point at a different user key, reusing the buffer.
    pub fn reset(&mut self, cf_id: u32, user_key: &[u8], snapshot_seq: u64)
        requires
            old(self).wf(),
        ensures
            final(self).wf(),
            final(self).user() == be32(cf_id) + user_key@,
            final(self).snapshot() == snapshot_seq,
    {
        self.buf.clear();
        self.fill(cf_id, user_key, snapshot_seq);
    }

    /// Re-point at a different key that is already prefixed, reusing the
    /// buffer.
    pub fn reset_prefixed(&mut self, prefixed: &[u8], snapshot_seq: u64)
        requires
            old(self).wf(),
        ensures
            final(self).wf(),
            final(self).user() == prefixed@,
            final(self).snapshot() == snapshot_seq,
    {
        self.buf.clear();
        self.buf.extend_from_slice(prefixed);
        assert(Seq::<u8>::empty() + prefixed@ =~= prefixed@);
        self.finish_trailer(snapshot_seq);
    }

    fn fill(&mut self, cf_id: u32, user_key: &[u8], snapshot_seq: u64)
        requires
            old(self).buf.wf(),
            old(self).buf@ == Seq::<u8>::empty(),
        ensures
            final(self).wf(),
            final(self).user() == be32(cf_id) + user_key@,
            final(self).snapshot() == snapshot_seq,
            final(self).on_heap() == (old(self).on_heap() || 4 + user_key@.len() + 9
                > INLINE_KEY_CAP),
    {
        let mut prefix: Vec<u8> = Vec::new();
        put_be32(&mut prefix, cf_id);
        assert(prefix@ =~= be32(cf_id));
        self.buf.extend_from_slice(prefix.as_slice());
        self.buf.extend_from_slice(user_key);
        assert(self.buf@ =~= be32(cf_id) + user_key@);
        self.finish_trailer(snapshot_seq);
    }

    fn finish_trailer(&mut self, snapshot_seq: u64)
        requires
            old(self).buf.wf(),
        ensures
            final(self).wf(),
            final(self).user() == old(self).buf@,
            final(self).snapshot() == snapshot_seq,
            final(self).on_heap() == (old(self).on_heap() || old(self).buf@.len() + 9
                > INLINE_KEY_CAP),
    {
        let ghost user = self.buf@;
        self.user_end = self.buf.len();
        let mut trailer: Vec<u8> = Vec::new();
        put_be64(&mut trailer, !snapshot_seq);
        trailer.push(VALUE_TYPE_DELETION);
        assert(trailer@ =~= be64(!snapshot_seq) + seq![VALUE_TYPE_DELETION]);
        self.buf.extend_from_slice(trailer.as_slice());
        self.snapshot_seq = snapshot_seq;
        assert(self.buf@.take(self.user_end as int) =~= user);
        assert(self.buf@ =~= internal_key(user, snapshot_seq, VALUE_TYPE_DELETION));
    }

    /// True when the encoding needed the heap.
    pub fn spilled(&self) -> (r: bool)
        ensures
            r == self.on_heap(),
    {
        self.buf.spilled()
    }
}

} // verus!
