//! Delivery of files in slices no larger than the transfer cap, one per request.

use vstd::prelude::*;

use crate::http::{Content, RequestRange};
use crate::mime::{sniff_type, sniffed};

verus! {

/// The most bytes of a file that one response carries.
pub const MAX_PARTIAL_PACKET_SIZE: usize = 1024 * 1024 * 8;

/// The offset at which a response to `range` starts reading: the first offset of an
/// open or closed range, and zero otherwise. A suffix range also starts at zero: its
/// offset is not honoured.
pub open spec fn start_of(range: Option<RequestRange>) -> usize {
    match range {
        Some(RequestRange::From(p)) => p,
        Some(RequestRange::Full(s, _)) => s,
        _ => 0,
    }
}

pub fn start_position(range: Option<RequestRange>) -> (r: usize)
    ensures
        r == start_of(range),
{
    match range {
        Some(RequestRange::From(p)) => p,
        Some(RequestRange::Full(s, _)) => s,
        _ => 0,
    }
}

/// How many bytes one response reads from a file of `file_size` bytes: the whole file
/// up to the transfer cap, whatever its type.
pub open spec fn limit_of(file_size: usize) -> usize {
    if file_size < MAX_PARTIAL_PACKET_SIZE {
        file_size
    } else {
        MAX_PARTIAL_PACKET_SIZE
    }
}

pub fn read_limit(file_size: usize) -> (r: usize)
    ensures
        r == limit_of(file_size),
        r <= MAX_PARTIAL_PACKET_SIZE,
{
    if file_size < MAX_PARTIAL_PACKET_SIZE {
        file_size
    } else {
        MAX_PARTIAL_PACKET_SIZE
    }
}

/// The slice that `n` bytes read at `start` make of a file of `size` bytes: none when
/// they are the whole file.
pub open spec fn chunk_range(start: usize, n: usize, size: usize) -> Option<(usize, usize, usize)> {
    if n < size {
        Some((start, (start + n - 1) as usize, size))
    } else {
        None
    }
}

/// Whether the bytes read reach the last byte of the file, which completes the
/// exchange: a whole file sent at once, or the last slice of a partial transfer.
pub open spec fn delivers_end(start: usize, n: usize, size: usize) -> bool {
    start + n == size
}

/// Whether `n` bytes read at `start` can be sent from a file of `size` bytes: they lie
/// within the file, they fit under the transfer cap, and some were read unless the
/// file is empty.
pub open spec fn sendable(start: usize, n: usize, size: usize) -> bool {
    start + n <= size && n <= MAX_PARTIAL_PACKET_SIZE && (n > 0 || size == 0)
}

/// The payload of a file response made of the `bytes` read at `start` from a file of
/// `file_size` bytes, typed by `mime` or else by the content of the slice, and whether
/// it reaches the end of the file. Bytes that do not fit the file, more bytes than the
/// transfer cap, or an empty read from a non-empty file (an offset past its end), give
/// `None`.
pub fn file_content(mime: Option<&'static str>, file_size: usize, start: usize, bytes: Vec<u8>) -> (r:
    Option<(Content, bool)>)
    ensures
        match r {
            Some((c, end)) => {
                &&& sendable(start, bytes@.len() as usize, file_size)
                &&& c.wf()
                &&& c.bytes@ == bytes@
                &&& c.bytes@.len() <= MAX_PARTIAL_PACKET_SIZE
                &&& c.range == chunk_range(start, bytes@.len() as usize, file_size)
                &&& c.mime_type@ == match mime {
                    Some(t) => t@,
                    None => sniffed(bytes@),
                }
                &&& end == delivers_end(start, bytes@.len() as usize, file_size)
            },
            None => !sendable(start, bytes@.len() as usize, file_size),
        },
{
    let n = bytes.len();
    if n > file_size || start > file_size - n || n > MAX_PARTIAL_PACKET_SIZE || (n == 0
        && file_size > 0) {
        return None;
    }
    let range = if n < file_size {
        Some((start, start + n - 1, file_size))
    } else {
        None
    };
    let end = start + n == file_size;
    let mime_type = match mime {
        Some(t) => t,
        None => sniff_type(bytes.as_slice()),
    };
    Some((Content { mime_type, range, bytes }, end))
}

/// The bytes that a read at `start` gets from a file of `size` bytes: as many as are
/// left, up to the transfer cap.
pub open spec fn full_read(start: usize, size: usize) -> usize {
    if size - start < MAX_PARTIAL_PACKET_SIZE {
        (size - start) as usize
    } else {
        MAX_PARTIAL_PACKET_SIZE
    }
}

/// The slices, as first offset, last offset and end flag, that a client gets when it
/// asks for `bytes=<start>-` and then, after each response not marked as the end, for
/// the offset after the last byte it got.
pub open spec fn transfer(start: usize, size: usize) -> Seq<(usize, usize, bool)>
    decreases size - start,
{
    if start >= size {
        Seq::empty()
    } else {
        let n = full_read(start, size);
        match chunk_range(start, n, size) {
            Some((first, last, _)) => {
                let here = seq![(first, last, delivers_end(start, n, size))];
                if delivers_end(start, n, size) {
                    here
                } else {
                    here + transfer(start_of(Some(RequestRange::From((last + 1) as usize))), size)
                }
            },
            None => seq![(0usize, (size - 1) as usize, true)],
        }
    }
}

/// The number of bytes in the given slices.
pub open spec fn total_len(t: Seq<(usize, usize, bool)>) -> int
    decreases t.len(),
{
    if t.len() == 0 {
        0
    } else {
        total_len(t.drop_last()) + (t.last().1 - t.last().0 + 1)
    }
}

proof fn lemma_total_len_prepend(x: (usize, usize, bool), t: Seq<(usize, usize, bool)>)
    ensures
        total_len(seq![x] + t) == (x.1 - x.0 + 1) + total_len(t),
    decreases t.len(),
{
    reveal_with_fuel(total_len, 2);
    if t.len() == 0 {
        assert(seq![x] + t =~= seq![x]);
        assert(seq![x].drop_last() =~= Seq::<(usize, usize, bool)>::empty());
    } else {
        lemma_total_len_prepend(x, t.drop_last());
        assert((seq![x] + t).drop_last() =~= seq![x] + t.drop_last());
        assert((seq![x] + t).last() == t.last());
    }
}

/// The slices of a transfer from `start` tile the rest of the file: the first starts
/// at `start`, each next one starts just after the last byte of the one before, only
/// the final one is marked as the end, and it ends at the file's last byte, so that
/// the slices hold `size - start` bytes in all.
pub proof fn lemma_transfer_from(start: usize, size: usize)
    requires
        size > MAX_PARTIAL_PACKET_SIZE,
        start < size,
    ensures
        ({
            let t = transfer(start, size);
            &&& t.len() >= 1
            &&& t[0].0 == start
            &&& forall|k: int| 0 <= k < t.len() ==> t[k].0 <= #[trigger] t[k].1 < size
            &&& forall|k: int| 0 <= k < t.len() - 1 ==> !(#[trigger] t[k]).2 && t[k + 1].0 == t[k].1 + 1
            &&& t.last().2
            &&& t.last().1 == size - 1
            &&& total_len(t) == size - start
        }),
    decreases size - start,
{
    let n = full_read(start, size);
    let t = transfer(start, size);
    assert(n < size);
    let last = (start + n - 1) as usize;
    let here = seq![(start, last, delivers_end(start, n, size))];
    if delivers_end(start, n, size) {
        reveal_with_fuel(total_len, 2);
        assert(t == here);
        assert(t.drop_last() =~= Seq::<(usize, usize, bool)>::empty());
    } else {
        let rest = transfer((last + 1) as usize, size);
        lemma_transfer_from((last + 1) as usize, size);
        assert(last + 1 > start);
        assert(t == here + rest);
        assert(here == seq![here[0]]);
        lemma_total_len_prepend(here[0], rest);
        assert(t[0] == here[0]);
        assert(t.last() == rest.last());
        assert forall|k: int| 0 <= k < t.len() - 1 implies !(#[trigger] t[k]).2 && t[k + 1].0 == t[k].1
            + 1 by {
            if k > 0 {
                assert(t[k] == rest[k - 1]);
                assert(t[k + 1] == rest[k]);
            }
        }
        assert forall|k: int| 0 <= k < t.len() implies t[k].0 <= #[trigger] t[k].1 < size by {
            if k > 0 {
                assert(t[k] == rest[k - 1]);
            }
        }
    }
}

/// A file larger than the transfer cap is delivered in order from its first byte to
/// its last: the transfer that a request without a range starts tiles the file, with the end flag on its
/// last slice only, and the slices hold exactly `size` bytes.
pub proof fn lemma_transfer_covers_file(size: usize)
    requires
        size > MAX_PARTIAL_PACKET_SIZE,
    ensures
        ({
            let t = transfer(start_of(None), size);
            &&& t[0].0 == 0
            &&& forall|k: int| 0 <= k < t.len() - 1 ==> !(#[trigger] t[k]).2 && t[k + 1].0 == t[k].1 + 1
            &&& t.last().2
            &&& t.last().1 == size - 1
            &&& total_len(t) == size
        }),
{
    lemma_transfer_from(0, size);
}

} // verus!
