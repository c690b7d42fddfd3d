use vstd::prelude::*;
use vstd::string::StringSliceAdditionalSpecFns;
use vstd::utf8::{decode_utf8, encode_utf8, is_char_boundary, valid_utf8};

use crate::bounded_queue::{tail_of, BoundedQueue};
use crate::chars_or_bytes::CharsOrBytes;
use crate::steno::output::{Output, OutputModel};
use crate::steno::surface::drop_end;

verus! {

/// The place, from `from` on, up to which `a` and `b` hold the same bytes.
pub open spec fn common_from(a: Seq<u8>, b: Seq<u8>, from: int) -> int
    decreases a.len() - from,
{
    if 0 <= from < a.len() && from < b.len() && a[from] == b[from] {
        common_from(a, b, from + 1)
    } else {
        from
    }
}

/// The last place at or before `index` where a character begins in the
/// UTF-8 text `bytes`.
pub open spec fn floor_boundary(bytes: Seq<u8>, index: int) -> int
    decreases index,
{
    if index <= 0 {
        0
    } else if is_char_boundary(bytes, index) {
        index
    } else {
        floor_boundary(bytes, index - 1)
    }
}

/// How many bytes of what the edit `o` would type stand in `buffer`
/// already, right where the edit would type them: the bytes that the two
/// have in common from there on, as far as whole characters go.
pub open spec fn shared_bytes(o: OutputModel, buffer: Seq<u8>) -> int {
    floor_boundary(
        encode_utf8(o.append),
        common_from(buffer.skip(buffer.len() - o.delete.bytes), encode_utf8(o.append), 0),
    )
}

/// The edit `o` made shorter for a surface whose last bytes are `buffer`:
/// what the edit would delete only to type it again is neither deleted nor
/// typed. The edit stays as it is where it deletes words, where it deletes
/// more than the buffer holds, and where it counts fewer characters to
/// delete than it would be spared.
pub open spec fn diffed(o: OutputModel, buffer: Seq<u8>) -> OutputModel {
    let bytes = encode_utf8(o.append);
    let same = shared_bytes(o, buffer);
    let chars = decode_utf8(bytes.take(same)).len();
    if o.delete_words != 0 || o.delete.bytes > buffer.len() || chars > o.delete.chars {
        o
    } else {
        OutputModel {
            delete_words: 0,
            delete: CharsOrBytes {
                chars: (o.delete.chars - chars) as usize,
                bytes: (o.delete.bytes - same) as usize,
            },
            append: decode_utf8(bytes.skip(same)),
        }
    }
}

/// The last bytes of a surface whose last bytes were `buffer` after the
/// edit `o`, of which no more than `limit` are kept. An edit that deletes
/// words leaves nothing known of the surface but what it types.
pub open spec fn buffer_applied(o: OutputModel, buffer: Seq<u8>, limit: nat) -> Seq<u8> {
    tail_of(
        (if o.delete_words == 0 {
            drop_end(buffer, o.delete.bytes as int)
        } else {
            Seq::empty()
        }) + encode_utf8(o.append),
        limit,
    )
}

proof fn lemma_common_from(a: Seq<u8>, b: Seq<u8>, from: int)
    requires
        0 <= from <= a.len(),
        from <= b.len(),
    ensures
        from <= common_from(a, b, from) <= a.len(),
        common_from(a, b, from) <= b.len(),
        forall|i: int| from <= i < common_from(a, b, from) ==> a[i] == b[i],
    decreases a.len() - from,
{
    if from < a.len() && from < b.len() && a[from] == b[from] {
        lemma_common_from(a, b, from + 1);
    }
}

proof fn lemma_floor_boundary(bytes: Seq<u8>, index: int)
    requires
        valid_utf8(bytes),
        0 <= index <= bytes.len(),
    ensures
        0 <= floor_boundary(bytes, index) <= index,
        is_char_boundary(bytes, floor_boundary(bytes, index)),
    decreases index,
{
    vstd::utf8::is_char_boundary_start_end_of_seq(bytes);
    if index > 0 && !is_char_boundary(bytes, index) {
        lemma_floor_boundary(bytes, index - 1);
    }
}

/// Pushing onto the newest items of a sequence gives the newest items of
/// the longer sequence.
proof fn lemma_tail_pushed(s: Seq<u8>, limit: nat, item: u8)
    requires
        limit >= 1,
    ensures
        BoundedQueue::<u8>::pushed(tail_of(s, limit), limit, item) == tail_of(s.push(item), limit),
{
    assert(BoundedQueue::<u8>::pushed(tail_of(s, limit), limit, item) =~= tail_of(
        s.push(item),
        limit,
    ));
}

/// The shorter edit does to the surface what the edit itself does.
pub proof fn lemma_diff_keeps_effect(o: OutputModel, buffer: Seq<u8>, limit: nat)
    ensures
        buffer_applied(diffed(o, buffer), buffer, limit) == buffer_applied(o, buffer, limit),
{
    broadcast use vstd::utf8::group_utf8_lib;

    let bytes = encode_utf8(o.append);
    let same = shared_bytes(o, buffer);
    let chars = decode_utf8(bytes.take(same)).len();
    if !(o.delete_words != 0 || o.delete.bytes > buffer.len() || chars > o.delete.chars) {
        let first = buffer.len() - o.delete.bytes;
        let tail = buffer.skip(first);
        lemma_common_from(tail, bytes, 0);
        let common = common_from(tail, bytes, 0);
        lemma_floor_boundary(bytes, common);
        vstd::utf8::valid_utf8_split(bytes, same);
        assert(bytes.subrange(same, bytes.len() as int) =~= bytes.skip(same));
        vstd::utf8::decode_utf8_encode_utf8(bytes.skip(same));
        let shorter = diffed(o, buffer);
        assert(encode_utf8(shorter.append) == bytes.skip(same));
        assert forall|i: int| 0 <= i < same implies buffer[first + i] == bytes[i] by {
            assert(tail[i] == buffer[first + i]);
        }
        assert(drop_end(buffer, shorter.delete.bytes as int) + bytes.skip(same) =~= drop_end(
            buffer,
            o.delete.bytes as int,
        ) + bytes);
    }
}

impl Output {
    /// Shortens the edit by what `buffer`, the last bytes of the surface,
    /// shows to stand there already.
    pub fn diff_with_buffer(&mut self, buffer: &mut BoundedQueue<u8>)
        ensures
            *final(buffer) == *old(buffer),
            final(self)@ == diffed(old(self)@, old(buffer)@),
    {
        broadcast use vstd::utf8::group_utf8_lib;

        if self.delete_words != 0 {
            return ;
        }
        let len = buffer.len();
        if self.delete.bytes > len {
            return ;
        }
        let first = len - self.delete.bytes;
        let ghost tail = buffer@.skip(first as int);
        let ghost all = encode_utf8(self.append@);
        let text = self.append.as_str();
        let bytes = text.as_bytes();
        let mut common: usize = 0;
        let mut matching = true;
        while matching && common < len - first && common < bytes.len()
            invariant
                first <= len,
                len == buffer@.len(),
                tail == buffer@.skip(first as int),
                bytes@ == all,
                common <= len - first,
                common <= bytes@.len(),
                common_from(tail, all, 0) == common_from(tail, all, common as int),
                !matching ==> common < tail.len() && common < all.len() && tail[common as int]
                    != all[common as int],
            decreases bytes@.len() - common + (if matching {
                1int
            } else {
                0int
            }),
        {
            assert(tail[common as int] == buffer@[first + common]);
            if *buffer.get(first + common) != bytes[common] {
                matching = false;
            } else {
                common += 1;
            }
        }
        assert(common_from(tail, all, common as int) == common);
        let mut same = common;
        proof {
            vstd::utf8::is_char_boundary_start_end_of_seq(all);
        }
        while same > 0 && !text.is_char_boundary(same)
            invariant
                text.spec_bytes() == all,
                valid_utf8(all),
                same <= common,
                floor_boundary(all, common as int) == floor_boundary(all, same as int),
            decreases same,
        {
            same -= 1;
        }
        proof {
            vstd::utf8::is_char_boundary_start_end_of_seq(all);
            assert(is_char_boundary(all, same as int));
            assert(floor_boundary(all, same as int) == same);
            assert(same == shared_bytes(self@, buffer@));
        }
        let (head, rest) = text.split_at(same);
        proof {
            vstd::utf8::encode_utf8_decode_utf8(head@);
            vstd::utf8::encode_utf8_decode_utf8(rest@);
            assert(all.subrange(0, same as int) =~= all.take(same as int));
            assert(all.subrange(same as int, all.len() as int) =~= all.skip(same as int));
        }
        let size = CharsOrBytes::for_str(head);
        match self.delete.checked_sub(size) {
            None => {},
            Some(delete) => {
                let shorter = rest.to_owned();
                self.delete = delete;
                self.append = shorter;
            },
        }
    }

    /// Does to `buffer`, the last bytes of the surface, what the edit does
    /// to the surface.
    pub fn apply_to_buffer(&self, buffer: &mut BoundedQueue<u8>)
        requires
            old(buffer).wf(),
        ensures
            final(buffer).wf(),
            final(buffer).bound() == old(buffer).bound(),
            final(buffer)@ == buffer_applied(self@, old(buffer)@, old(buffer).limit()),
    {
        let ghost limit = buffer.limit();
        proof {
            buffer.lemma_within_limit();
        }
        if self.delete_words == 0 {
            let len = buffer.len();
            let count = if self.delete.bytes < len {
                self.delete.bytes
            } else {
                len
            };
            let mut k: usize = 0;
            while k < count
                invariant
                    buffer.wf(),
                    buffer.bound() == old(buffer).bound(),
                    k <= count <= len,
                    len == old(buffer)@.len(),
                    buffer@ == old(buffer)@.take(len - k),
                decreases count - k,
            {
                buffer.pop_back();
                assert(old(buffer)@.take(len - k).drop_last() =~= old(buffer)@.take(len - k - 1));
                k += 1;
            }
            assert(buffer@ =~= drop_end(old(buffer)@, self.delete.bytes as int));
        } else {
            buffer.clear();
        }
        let ghost kept = buffer@;
        let bytes = self.append.as_str().as_bytes();
        let mut i: usize = 0;
        assert(kept + bytes@.take(0) =~= kept);
        while i < bytes.len()
            invariant
                buffer.wf(),
                buffer.bound() == old(buffer).bound(),
                limit == buffer.limit(),
                limit >= 1,
                i <= bytes@.len(),
                buffer@ == tail_of(kept + bytes@.take(i as int), limit),
            decreases bytes@.len() - i,
        {
            proof {
                lemma_tail_pushed(kept + bytes@.take(i as int), limit, bytes@[i as int]);
                assert((kept + bytes@.take(i as int)).push(bytes@[i as int]) =~= kept
                    + bytes@.take(i + 1));
            }
            buffer.push(bytes[i]);
            i += 1;
        }
        assert(bytes@.take(i as int) =~= bytes@);
    }

    /// Shortens the edit by what `buffer` shows, and then does to `buffer`
    /// what the edit does to the surface.
    pub fn use_buffer(&mut self, buffer: &mut BoundedQueue<u8>)
        requires
            old(buffer).wf(),
        ensures
            final(buffer).wf(),
            final(buffer).bound() == old(buffer).bound(),
            final(self)@ == diffed(old(self)@, old(buffer)@),
            final(buffer)@ == buffer_applied(old(self)@, old(buffer)@, old(buffer).limit()),
    {
        proof {
            lemma_diff_keeps_effect(self@, buffer@, buffer.limit());
        }
        self.diff_with_buffer(buffer);
        self.apply_to_buffer(buffer);
    }
}

} // verus!
